//! The layout of an installation: where the binaries, scripts, manual and
//! shell functions go under the install directory.
use crate::path::{join_path, joined};
use vstd::prelude::*;
use vstd::string::StringExecFns;

verus! {

/// What the installer was asked to do.
pub struct InstallOpts {
    /// Install to the default directory (`Some(None)`) or to the one given.
    pub install: Option<Option<String>>,
    pub uninstall: bool,
    /// Remove the user's store as well.
    pub purge: bool,
    pub prefix: Option<String>,
    pub zshshare: Option<String>,
    pub clinkdir: Option<String>,
    pub dryrun: bool,
    /// Skip the root-user and shell checks.
    pub force: bool,
    /// Install for all users.
    pub system: bool,
    pub verbose: u32,
}

/// Why the installer refuses to go on.
#[derive(Debug, Clone, Copy, PartialEq, Eq, Structural)]
pub enum InstallError {
    /// A system-wide installation needs the root user.
    NotRoot,
    /// The shell has no integration script.
    UnsupportedShell,
    /// The install directory that was given does not exist.
    InstallDirMissing,
    /// The zsh functions directory that was given does not exist.
    ZshshareMissing,
    /// Custom directories were given with a system-wide installation.
    CustomWithSystem,
}

/// The install directory and whether it is a custom one, after `--install`.
pub open spec fn install_dir_after(c: Config, opts: InstallOpts) -> (Seq<char>, bool) {
    match opts.install {
        Some(Some(p)) => (p@, c.custom_install || p@ != c.install_dir@),
        _ => (c.install_dir@, c.custom_install),
    }
}

/// The prefix and whether the installation is custom, after `--prefix`.
pub open spec fn prefix_after(c: Config, opts: InstallOpts) -> (Seq<char>, bool) {
    let custom = install_dir_after(c, opts).1;
    match opts.prefix {
        Some(p) => (p@, custom || p@ != c.prefix@),
        None => (c.prefix@, custom),
    }
}

/// The install directory and prefix that the directories derive from.
pub open spec fn base_dirs(c: Config, opts: InstallOpts) -> (Seq<char>, Seq<char>) {
    if opts.system {
        ("/"@, "/usr/local"@)
    } else {
        (install_dir_after(c, opts).0, prefix_after(c, opts).0)
    }
}

/// Whether the installation is custom once every option is read.
pub open spec fn custom_after(c: Config, opts: InstallOpts) -> bool {
    let derived = joined(base_dirs(c, opts).0, "functions"@);
    match opts.zshshare {
        Some(z) => prefix_after(c, opts).1 || z@ != derived,
        None => prefix_after(c, opts).1,
    }
}

/// The zsh functions directory once every option is read.
pub open spec fn zshshare_after(c: Config, opts: InstallOpts) -> Seq<char> {
    if opts.system {
        "/usr/share/zsh/site-functions"@
    } else {
        match opts.zshshare {
            Some(z) => z@,
            None => joined(base_dirs(c, opts).0, "functions"@),
        }
    }
}

/// The shells that have an integration script.
pub open spec fn supported_shell(shell: Seq<char>) -> bool {
    shell == "bash"@ || shell == "zsh"@ || shell == "fish"@ || shell == "tcsh"@
}

fn same_text(a: &String, b: &str) -> (r: bool)
    ensures
        r == (a@ == b@),
{
    let t = String::from_str(b);
    *a == t
}

/// Whether the installer may go on, for the user's shell and whether the
/// user is root.
pub fn check_opts(opts: &InstallOpts, is_root: bool, shell: &String) -> (r: Result<(), InstallError>)
    ensures
        opts.force ==> r is Ok,
        !opts.force && opts.system && !is_root ==> r == Err::<(), InstallError>(InstallError::NotRoot),
        !opts.force && !(opts.system && !is_root) ==> (r is Ok <==> supported_shell(shell@)),
        !opts.force && !(opts.system && !is_root) && !supported_shell(shell@) ==> r == Err::<
            (),
            InstallError,
        >(InstallError::UnsupportedShell),
{
    if opts.force {
        return Ok(());
    }
    if opts.system && !is_root {
        return Err(InstallError::NotRoot);
    }
    if same_text(shell, "bash") || same_text(shell, "zsh") || same_text(shell, "fish") || same_text(
        shell,
        "tcsh",
    ) {
        Ok(())
    } else {
        Err(InstallError::UnsupportedShell)
    }
}

/// The startup file of `shell` and the line that sources the integration
/// script from it.
pub open spec fn rc_file_of(etc_dir: Seq<char>, share_dir: Seq<char>, shell: Seq<char>) -> (
    Seq<char>,
    Seq<char>,
) {
    if shell == "fish"@ {
        let script = share_dir + "/fastjump.fish"@;
        ("~/.config/fish/config.fish"@, "if test -f "@ + script + "; . "@ + script + "; end"@)
    } else {
        let script = etc_dir + "/fastjump.sh"@;
        ("~/."@ + shell + "rc"@, "[[ -s "@ + script + " ]] && source "@ + script)
    }
}

/// The startup file of `shell` and the line that sources the integration
/// script from it.
pub fn get_rc_file(etc_dir: &String, share_dir: &String, shell: &String) -> (r: (String, String))
    ensures
        (r.0@, r.1@) == rc_file_of(etc_dir@, share_dir@, shell@),
{
    if same_text(shell, "fish") {
        let mut script = share_dir.clone();
        script.append("/fastjump.fish");
        let mut msg = String::from_str("if test -f ");
        msg.append(script.as_str());
        msg.append("; . ");
        msg.append(script.as_str());
        msg.append("; end");
        (String::from_str("~/.config/fish/config.fish"), msg)
    } else {
        let mut script = etc_dir.clone();
        script.append("/fastjump.sh");
        let mut msg = String::from_str("[[ -s ");
        msg.append(script.as_str());
        msg.append(" ]] && source ");
        msg.append(script.as_str());
        let mut rc = String::from_str("~/.");
        rc.append(shell.as_str());
        rc.append("rc");
        (rc, msg)
    }
}

/// The directories of an installation.
pub struct Config {
    pub prefix: String,
    pub install_dir: String,
    pub bin_dir: String,
    pub etc_dir: String,
    pub doc_dir: String,
    pub share_dir: String,
    pub zshshare_dir: String,
    pub custom_install: bool,
}

fn join_str(base: &String, tail: &str) -> (r: String)
    ensures
        r@ == joined(base@, tail@),
{
    let t = String::from_str(tail);
    join_path(base, &t)
}

impl Config {
    /// Derives the directories from the install directory and the prefix.
    pub fn update(&mut self)
        ensures
            final(self).prefix == old(self).prefix,
            final(self).install_dir == old(self).install_dir,
            final(self).custom_install == old(self).custom_install,
            final(self).bin_dir@ == joined(joined(old(self).install_dir@, old(self).prefix@), "bin"@),
            final(self).etc_dir@ == joined(joined(old(self).install_dir@, "etc"@), "profile.d"@),
            final(self).doc_dir@ == joined(
                joined(joined(joined(old(self).install_dir@, old(self).prefix@), "share"@), "man"@),
                "man1"@,
            ),
            final(self).share_dir@ == joined(
                joined(joined(old(self).install_dir@, old(self).prefix@), "share"@),
                "fastjump"@,
            ),
            final(self).zshshare_dir@ == joined(old(self).install_dir@, "functions"@),
    {
        let base = join_path(&self.install_dir, &self.prefix);
        self.bin_dir = join_str(&base, "bin");
        let etc = join_str(&self.install_dir, "etc");
        self.etc_dir = join_str(&etc, "profile.d");
        let share = join_str(&base, "share");
        let man = join_str(&share, "man");
        self.doc_dir = join_str(&man, "man1");
        self.share_dir = join_str(&share, "fastjump");
        self.zshshare_dir = join_str(&self.install_dir, "functions");
    }

    /// Applies the installer's options: a custom install directory (which
    /// must exist), a prefix, a system-wide installation, and a custom zsh
    /// functions directory (which must exist); custom directories cannot go
    /// with a system-wide installation.
    pub fn update_from_opts(&mut self, opts: &InstallOpts) -> (r: Result<(), InstallError>)
        ensures
            r is Ok ==> {
                let (inst, pre) = base_dirs(*old(self), *opts);
                &&& final(self).install_dir@ == inst
                &&& final(self).prefix@ == pre
                &&& final(self).custom_install == custom_after(*old(self), *opts)
                &&& final(self).bin_dir@ == joined(joined(inst, pre), "bin"@)
                &&& final(self).etc_dir@ == joined(joined(inst, "etc"@), "profile.d"@)
                &&& final(self).doc_dir@ == joined(
                    joined(joined(joined(inst, pre), "share"@), "man"@),
                    "man1"@,
                )
                &&& final(self).share_dir@ == joined(
                    joined(joined(inst, pre), "share"@),
                    "fastjump"@,
                )
                &&& final(self).zshshare_dir@ == zshshare_after(*old(self), *opts)
            },
            opts.system && custom_after(*old(self), *opts) ==> r is Err,
            r == Err::<(), InstallError>(InstallError::CustomWithSystem) ==> opts.system
                && custom_after(*old(self), *opts),
            r == Err::<(), InstallError>(InstallError::InstallDirMissing) ==> opts.install matches Some(Some(_)),
            r == Err::<(), InstallError>(InstallError::ZshshareMissing) ==> opts.zshshare is Some,
            r != Err::<(), InstallError>(InstallError::NotRoot),
            r != Err::<(), InstallError>(InstallError::UnsupportedShell),
    {
        let ghost c0 = *self;
        if let Some(Some(install)) = &opts.install {
            if !(*install == self.install_dir) {
                self.custom_install = true;
                self.install_dir = install.clone();
            }
            if !crate::database::path_exists(&self.install_dir) {
                return Err(InstallError::InstallDirMissing);
            }
        }
        assert(self.install_dir@ == install_dir_after(c0, *opts).0);
        assert(self.custom_install == install_dir_after(c0, *opts).1);
        if let Some(prefix) = &opts.prefix {
            if !(*prefix == self.prefix) {
                self.custom_install = true;
            }
            self.prefix = prefix.clone();
        }
        assert(self.prefix@ == prefix_after(c0, *opts).0);
        assert(self.custom_install == prefix_after(c0, *opts).1);
        if opts.system {
            self.install_dir = String::from_str("/");
            self.prefix = String::from_str("/usr/local");
        }
        assert(self.install_dir@ == base_dirs(c0, *opts).0);
        assert(self.prefix@ == base_dirs(c0, *opts).1);
        self.update();
        if let Some(zshshare) = &opts.zshshare {
            if !(*zshshare == self.zshshare_dir) {
                self.custom_install = true;
            }
            self.zshshare_dir = zshshare.clone();
            if !crate::database::path_exists(&self.zshshare_dir) {
                return Err(InstallError::ZshshareMissing);
            }
        }
        assert(self.custom_install == custom_after(c0, *opts));
        if opts.system {
            if self.custom_install {
                return Err(InstallError::CustomWithSystem);
            }
            self.zshshare_dir = String::from_str("/usr/share/zsh/site-functions");
        }
        Ok(())
    }
}

} // verus!
