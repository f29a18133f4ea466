use fastjump::config::{environment_check, into_level, is_sourced, toggle_bool, Config, EnvError, Verbosity};
use fastjump::install;
use fastjump::path::{absolute_path, join_path, normalize_path};

fn s(x: &str) -> String {
    x.to_string()
}

#[test]
fn normalize_collapses_separators() {
    assert_eq!(normalize_path(&s("/a//b/")), "/a/b");
    assert_eq!(normalize_path(&s("/a/./b")), "/a/b");
    assert_eq!(normalize_path(&s("./a/./b")), "./a/b");
    assert_eq!(normalize_path(&s("a/../b")), "a/../b");
    assert_eq!(normalize_path(&s("/")), "/");
    assert_eq!(normalize_path(&s("")), "");
    assert_eq!(normalize_path(&s("./")), ".");
    assert_eq!(normalize_path(&s("//x")), "/x");
}

#[test]
fn joins() {
    assert_eq!(join_path(&s("/a"), &s("b")), "/a/b");
    assert_eq!(join_path(&s("/a/"), &s("b")), "/a/b");
    assert_eq!(join_path(&s("/a"), &s("/b")), "/b");
    assert_eq!(join_path(&s(""), &s("b")), "b");
}

#[test]
fn absolute_and_clean() {
    assert_eq!(absolute_path(&s("b/../c"), &s("/home/u")), "/home/u/c");
    assert_eq!(absolute_path(&s("/x/./y/"), &s("/home/u")), "/x/y");
    assert_eq!(absolute_path(&s(".."), &s("/home/u")), "/home");
}

#[test]
fn store_files() {
    let c = Config::default(&s("/home/u/.local/share"));
    assert_eq!(c.data_path, "/home/u/.local/share/fastjump/fastjump.db");
    assert_eq!(c.backup_path, "/home/u/.local/share/fastjump/fastjump.db.bak");
}

#[test]
fn install_layout() {
    let mut c = install::Config {
        prefix: s(""),
        install_dir: s("/home/u/.fastjump"),
        bin_dir: s(""),
        etc_dir: s(""),
        doc_dir: s(""),
        share_dir: s(""),
        zshshare_dir: s(""),
        custom_install: false,
    };
    c.update();
    assert_eq!(c.bin_dir, "/home/u/.fastjump/bin");
    assert_eq!(c.etc_dir, "/home/u/.fastjump/etc/profile.d");
    assert_eq!(c.doc_dir, "/home/u/.fastjump/share/man/man1");
    assert_eq!(c.share_dir, "/home/u/.fastjump/share/fastjump");
    assert_eq!(c.zshshare_dir, "/home/u/.fastjump/functions");
    c.install_dir = s("/");
    c.prefix = s("/usr/local");
    c.update();
    assert_eq!(c.bin_dir, "/usr/local/bin");
    assert_eq!(c.etc_dir, "/etc/profile.d");
}

#[test]
fn levels() {
    assert_eq!(into_level(0), Verbosity::Off);
    assert_eq!(into_level(1), Verbosity::Error);
    assert_eq!(into_level(2), Verbosity::Warn);
    assert_eq!(into_level(3), Verbosity::Info);
    assert_eq!(into_level(4), Verbosity::Debug);
    assert_eq!(into_level(5), Verbosity::Trace);
    assert_eq!(into_level(u32::MAX), Verbosity::Trace);
}

#[test]
fn flags() {
    assert!(!toggle_bool(0));
    assert!(toggle_bool(1));
    assert!(toggle_bool(3));
}

#[test]
fn sourcing() {
    assert!(!is_sourced(&None));
    assert!(!is_sourced(&Some(s("0"))));
    assert!(!is_sourced(&Some(s("false"))));
    assert!(is_sourced(&Some(s("1"))));
    assert_eq!(environment_check(&Some(s("yes"))), Ok(()));
    assert_eq!(environment_check(&None), Err(EnvError::NotSourced));
}
