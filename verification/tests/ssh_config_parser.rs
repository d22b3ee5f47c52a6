use terminox::ssh_config_parser::{expand_tilde_with_home, parse_ssh_config_str, parse_ssh_config_text};

const SAMPLE: &str = "# personal hosts\n\
Host web\n\
    HostName 10.0.0.5\n\
    User deploy\n\
    Port 2222\n\
    IdentityFile ~/.ssh/id_web\n\
\n\
Host *.internal\n\
    HostName jump.example\n\
\n\
HOST db\r\n\
  hostname db.example\r\n\
  port notanumber\r\n\
Host nohost\n\
  User alone\n\
Host last\n\
  HostName last.example\n\
  IdentityFile /abs/key";

#[test]
fn parses_blocks_in_file_order() {
    let entries = parse_ssh_config_text(SAMPLE, Some("/home/u"));
    assert_eq!(entries.len(), 3);
    assert_eq!(entries[0].alias, "web");
    assert_eq!(entries[0].hostname, "10.0.0.5");
    assert_eq!(entries[0].port, 2222);
    assert_eq!(entries[0].user.as_deref(), Some("deploy"));
    assert_eq!(entries[0].identity_file.as_deref(), Some("/home/u/.ssh/id_web"));
    assert_eq!(entries[1].alias, "db");
    assert_eq!(entries[1].hostname, "db.example");
    assert_eq!(entries[1].port, 22);
    assert_eq!(entries[1].user, None);
    assert_eq!(entries[2].alias, "last");
    assert_eq!(entries[2].identity_file.as_deref(), Some("/abs/key"));
}

#[test]
fn wildcard_hosts_are_skipped() {
    let entries = parse_ssh_config_text("Host a?\n HostName x\nHost *\n HostName y\n", None);
    assert!(entries.is_empty());
}

#[test]
fn tilde_kept_without_home() {
    let entries = parse_ssh_config_text("Host h\nHostName x\nIdentityFile ~/k\n", None);
    assert_eq!(entries[0].identity_file.as_deref(), Some("~/k"));
}

#[test]
fn port_parsing_follows_u16_from_str() {
    let p = |v: &str| parse_ssh_config_text(&format!("Host h\nHostName x\nPort {}\n", v), None)[0].port;
    assert_eq!(p("+2200"), 2200);
    assert_eq!(p("65535"), 65535);
    assert_eq!(p("65536"), 22);
    assert_eq!(p("-1"), 22);
    assert_eq!(p("+"), 22);
    assert_eq!(p("0022"), 22);
    assert_eq!(p("80 80"), 22);
}

#[test]
fn unicode_whitespace_separates_and_trims() {
    let entries = parse_ssh_config_text("\u{3000}Host\u{a0}box\u{2003}\nHostName\tbox.local  \n", None);
    assert_eq!(entries.len(), 1);
    assert_eq!(entries[0].alias, "box");
    assert_eq!(entries[0].hostname, "box.local");
}

#[test]
fn key_without_value_sets_empty_value() {
    let entries = parse_ssh_config_text("Host h\nHostName\n", None);
    assert_eq!(entries.len(), 1);
    assert_eq!(entries[0].hostname, "");
}

#[test]
fn empty_text_gives_nothing() {
    assert!(parse_ssh_config_text("", Some("/h")).is_empty());
    assert!(parse_ssh_config_str("").is_empty());
}

#[test]
fn expand_tilde_cases() {
    assert_eq!(expand_tilde_with_home("~", Some("/h")), "/h");
    assert_eq!(expand_tilde_with_home("~/a", Some("/h")), "/h/a");
    assert_eq!(expand_tilde_with_home("~a", Some("/h")), "~a");
    assert_eq!(expand_tilde_with_home("/x/~", Some("/h")), "/x/~");
}

#[test]
fn layout_and_keyword_case_do_not_matter() {
    let plain = "Host web\nHostName 10.0.0.5\nPort 2200\nUser me\n";
    let noisy = "# header\n\n  hOsT \t web\n\tHOSTNAME    10.0.0.5  \nForwardAgent yes\n# note\nport 2200\n   \nuSeR\u{a0}me";
    let a = parse_ssh_config_text(plain, None);
    let b = parse_ssh_config_text(noisy, None);
    assert_eq!(a.len(), 1);
    assert_eq!(b.len(), 1);
    assert_eq!((a[0].alias.as_str(), a[0].hostname.as_str(), a[0].port, a[0].user.as_deref()),
               (b[0].alias.as_str(), b[0].hostname.as_str(), b[0].port, b[0].user.as_deref()));
}

#[test]
fn neutral_line_inserted_first_or_last_changes_nothing() {
    let base = "Host a\nHostName 1.2.3.4\nPort 22";
    let first = "# comment\nHost a\nHostName 1.2.3.4\nPort 22";
    let last = "Host a\nHostName 1.2.3.4\nPort 22\nCompression yes";
    let view = |t: &str| {
        parse_ssh_config_text(t, None)
            .iter()
            .map(|e| (e.alias.clone(), e.hostname.clone(), e.port, e.user.clone(), e.identity_file.clone()))
            .collect::<Vec<_>>()
    };
    assert_eq!(view(base).len(), 1);
    assert_eq!(view(base), view(first));
    assert_eq!(view(base), view(last));
}

#[test]
fn respelled_lines_import_the_same_host() {
    let a = "Host srv\nHostName h.example\nUser admin\nIdentityFile /k";
    let b = " HOST\tsrv \nhostname h.example\nuser   admin\t\n\tidentityFILE /k  ";
    let x = parse_ssh_config_text(a, None);
    let y = parse_ssh_config_text(b, None);
    assert_eq!(x.len(), 1);
    assert_eq!(y.len(), 1);
    assert_eq!(x[0].alias, y[0].alias);
    assert_eq!(x[0].hostname, y[0].hostname);
    assert_eq!(x[0].user, y[0].user);
    assert_eq!(x[0].identity_file, y[0].identity_file);
}
