//! The virtual-environment builder's settings.  The directory creation
//! itself is filesystem work done by the embedding program; the settings
//! value, its defaults and the configuration text it prescribes are
//! verified here.

use vstd::prelude::*;

verus! {

/// The choices a virtual-environment creation honours.
#[derive(Debug, Clone)]
pub struct EnvBuilder {
    pub system_site_packages: bool,
    pub clear: bool,
    pub symlinks: bool,
    pub with_pip: bool,
    pub prompt: Option<String>,
}

impl EnvBuilder {
    /// The default choices: isolated, keep an existing directory, copy
    /// rather than link, install the package manager, no custom prompt.
    pub fn new() -> (r: EnvBuilder)
        ensures
            r.system_site_packages == false,
            r.clear == false,
            r.symlinks == false,
            r.with_pip == true,
            r.prompt is None,
    {
        EnvBuilder {
            system_site_packages: false,
            clear: false,
            symlinks: false,
            with_pip: true,
            prompt: None,
        }
    }

    /// Every choice made explicitly.
    pub fn with_options(
        system_site_packages: bool,
        clear: bool,
        symlinks: bool,
        with_pip: bool,
        prompt: Option<String>,
    ) -> (r: EnvBuilder)
        ensures
            r.system_site_packages == system_site_packages,
            r.clear == clear,
            r.symlinks == symlinks,
            r.with_pip == with_pip,
            r.prompt == prompt,
    {
        EnvBuilder { system_site_packages, clear, symlinks, with_pip, prompt }
    }

    /// The configuration text the created environment is given.
    pub fn config_text(&self) -> (r: String)
        ensures
            r@ == "home = /usr/local/bin\ninclude-system-site-packages = "@ + (
                if self.system_site_packages {
                    "true"@
                } else {
                    "false"@
                }
            ) + "\nversion = 3.11.0\n"@,
    {
        let mut out = String::new();
        out.append("home = /usr/local/bin\ninclude-system-site-packages = ");
        if self.system_site_packages {
            out.append("true");
        } else {
            out.append("false");
        }
        out.append("\nversion = 3.11.0\n");
        proof {
            assert(Seq::<char>::empty() + "home = /usr/local/bin\ninclude-system-site-packages = "@
                =~= "home = /usr/local/bin\ninclude-system-site-packages = "@);
        }
        out
    }
}

impl Default for EnvBuilder {
    /// The default choices, as `new` gives them.
    fn default() -> (r: EnvBuilder)
        ensures
            r.system_site_packages == false && r.clear == false && r.symlinks == false
                && r.with_pip == true && r.prompt is None,
    {
        EnvBuilder::new()
    }
}

} // verus!
