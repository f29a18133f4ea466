use fastjump::install::{check_opts, get_rc_file, Config, InstallError, InstallOpts};

fn s(x: &str) -> String {
    x.to_string()
}

fn opts() -> InstallOpts {
    InstallOpts {
        install: None,
        uninstall: false,
        purge: false,
        prefix: None,
        zshshare: None,
        clinkdir: None,
        dryrun: false,
        force: false,
        system: false,
        verbose: 0,
    }
}

fn config(install_dir: &str) -> Config {
    let mut c = Config {
        prefix: s(""),
        install_dir: s(install_dir),
        bin_dir: s(""),
        etc_dir: s(""),
        doc_dir: s(""),
        share_dir: s(""),
        zshshare_dir: s(""),
        custom_install: false,
    };
    c.update();
    c
}

#[test]
fn shells_and_root() {
    let mut o = opts();
    assert_eq!(check_opts(&o, false, &s("bash")), Ok(()));
    assert_eq!(check_opts(&o, false, &s("tcsh")), Ok(()));
    assert_eq!(check_opts(&o, false, &s("nu")), Err(InstallError::UnsupportedShell));
    o.system = true;
    assert_eq!(check_opts(&o, false, &s("bash")), Err(InstallError::NotRoot));
    assert_eq!(check_opts(&o, true, &s("bash")), Ok(()));
    o.force = true;
    assert_eq!(check_opts(&o, false, &s("nu")), Ok(()));
}

#[test]
fn rc_files() {
    let (rc, msg) = get_rc_file(&s("/i/etc/profile.d"), &s("/i/share/fastjump"), &s("bash"));
    assert_eq!(rc, "~/.bashrc");
    assert_eq!(
        msg,
        "[[ -s /i/etc/profile.d/fastjump.sh ]] && source /i/etc/profile.d/fastjump.sh"
    );
    let (rc, msg) = get_rc_file(&s("/i/etc/profile.d"), &s("/i/share/fastjump"), &s("fish"));
    assert_eq!(rc, "~/.config/fish/config.fish");
    assert_eq!(
        msg,
        "if test -f /i/share/fastjump/fastjump.fish; . /i/share/fastjump/fastjump.fish; end"
    );
}

#[test]
fn options_move_directories() {
    let mut c = config("/home/u/.fastjump");
    let mut o = opts();
    o.install = Some(Some(s("/")));
    o.prefix = Some(s("opt"));
    assert_eq!(c.update_from_opts(&o), Ok(()));
    assert!(c.custom_install);
    assert_eq!(c.bin_dir, "/opt/bin");
    assert_eq!(c.zshshare_dir, "/functions");
}

#[test]
fn missing_install_dir() {
    let mut c = config("/home/u/.fastjump");
    let mut o = opts();
    o.install = Some(Some(s("/surely/not/here/fastjump-install")));
    assert_eq!(c.update_from_opts(&o), Err(InstallError::InstallDirMissing));
}

#[test]
fn system_install() {
    let mut c = config("/home/u/.fastjump");
    let mut o = opts();
    o.system = true;
    assert_eq!(c.update_from_opts(&o), Ok(()));
    assert_eq!(c.bin_dir, "/usr/local/bin");
    assert_eq!(c.zshshare_dir, "/usr/share/zsh/site-functions");
    let mut c = config("/home/u/.fastjump");
    o.prefix = Some(s("/opt"));
    assert_eq!(c.update_from_opts(&o), Err(InstallError::CustomWithSystem));
}
