//! The path-joining rule of the operating-system interface.  Everything
//! that actually touches the environment or the process table lives with
//! the embedding program.

use vstd::prelude::*;
use crate::caps::AsPathLike;
use crate::pathlib::join_paths_spec;
use crate::strutil::chars_to_string;
use crate::strutil::str_to_chars;

verus! {

/// The fold of path joining over several components.
pub open spec fn join_many_spec(first: Seq<char>, rest: Seq<Seq<char>>, i: int) -> Seq<char>
    decreases rest.len() - i,
{
    if i < 0 || i >= rest.len() {
        first
    } else {
        join_many_spec(join_paths_spec(first, rest[i]), rest, i + 1)
    }
}

/// Join a first path component with any further ones: an absolute
/// component restarts the path, any other is appended behind a separator.
pub fn join_paths<P: AsPathLike>(first: P, rest: &[P]) -> (r: String)
    ensures
        r@ == join_many_spec(
            first.path_view(),
            rest@.map_values(|p: P| p.path_view()),
            0,
        ),
{
    let ghost gviews = rest@.map_values(|p: P| p.path_view());
    let mut cur: Vec<char> = str_to_chars(first.as_path_like());
    let mut i: usize = 0;
    while i < rest.len()
        invariant
            i <= rest@.len(),
            gviews == rest@.map_values(|p: P| p.path_view()),
            join_many_spec(first.path_view(), gviews, 0)
                == join_many_spec(cur@, gviews, i as int),
        decreases rest@.len() - i,
    {
        let piece = str_to_chars(rest[i].as_path_like());
        proof {
            assert(gviews[i as int] == rest@[i as int].path_view());
        }
        let mut next: Vec<char> = Vec::new();
        if (piece.len() > 0 && piece[0] == '/') || cur.len() == 0 {
            next = piece;
        } else {
            crate::strutil::push_all(&mut next, &cur);
            if cur[cur.len() - 1] != '/' {
                next.push('/');
            }
            crate::strutil::push_all(&mut next, &piece);
            proof {
                reveal_strlit("/");
                if cur@.last() == '/' {
                    assert(next@ =~= cur@ + gviews[i as int]);
                } else {
                    assert(next@ =~= cur@ + "/"@ + gviews[i as int]);
                }
            }
        }
        proof {
            assert(next@ == join_paths_spec(cur@, gviews[i as int]));
        }
        cur = next;
        i += 1;
    }
    chars_to_string(&cur)
}

} // verus!
