use ihost::active::{unuse_hostname, use_hostname};
use ihost::cli::{plan_command, Command};
use ihost::lines::BufLine;
use ihost::paths::{base_name, list_rows, transform_path};
use ihost::render::{read_profile, render_hosts_file, Profile};
use ihost::scan::get_used_hostnames_from_hosts_file;

fn b(s: &str) -> Vec<u8> {
    s.as_bytes().to_vec()
}

fn store_web() -> Vec<Profile> {
    vec![Profile { name: b("web"), content: b("127.0.0.1 web.local\n") }]
}

fn store_ab() -> Vec<Profile> {
    vec![
        Profile { name: b("alpha"), content: b("10.0.0.1 alpha.local\n") },
        Profile { name: b("beta"), content: b("10.0.0.2 beta.local\n") },
    ]
}

#[test]
fn bufline_yields_each_terminated_line() {
    let data = b"one\ntwo\n";
    let mut it = BufLine::new(data);
    assert_eq!(it.next(), Some(&b"one"[..]));
    assert_eq!(it.next(), Some(&b"two"[..]));
    assert_eq!(it.next(), None);
}

#[test]
fn bufline_yields_final_unterminated_line() {
    let data = b"one\ntwo";
    let mut it = BufLine::new(data);
    assert_eq!(it.next(), Some(&b"one"[..]));
    assert_eq!(it.next(), Some(&b"two"[..]));
    assert_eq!(it.next(), None);
}

#[test]
fn bufline_empty_buffer_has_no_lines() {
    let mut it = BufLine::new(b"");
    assert_eq!(it.next(), None);
}

#[test]
fn bufline_lone_newline_is_one_empty_line() {
    let mut it = BufLine::new(b"\n");
    assert_eq!(it.next(), Some(&b""[..]));
    assert_eq!(it.next(), None);
}

#[test]
fn get_returns_raw_content() {
    let store = store_web();
    let content = read_profile(&store, &b("web"));
    assert_eq!(content, Some(&b("127.0.0.1 web.local\n")));
}

#[test]
fn get_missing_name_is_none() {
    let store = store_web();
    assert_eq!(read_profile(&store, &b("ghost")), None);
}

#[test]
fn use_then_render_writes_block() {
    let store = store_web();
    let mut active: Vec<Vec<u8>> = Vec::new();
    use_hostname(&mut active, b("web"));
    let out = render_hosts_file(&active, &store);
    assert_eq!(out, b("# hostname=web\n127.0.0.1 web.local\n"));
}

#[test]
fn unuse_then_render_removes_block() {
    let store = store_ab();
    let active = vec![b("alpha"), b("beta")];
    let active = unuse_hostname(&active, &b("alpha"));
    let out = render_hosts_file(&active, &store);
    assert_eq!(out, b("# hostname=beta\n10.0.0.2 beta.local\n"));
}

#[test]
fn use_twice_equals_use_once() {
    let mut once: Vec<Vec<u8>> = vec![b("alpha")];
    use_hostname(&mut once, b("web"));
    let mut twice: Vec<Vec<u8>> = vec![b("alpha")];
    use_hostname(&mut twice, b("web"));
    use_hostname(&mut twice, b("web"));
    assert_eq!(once, twice);
    assert_eq!(twice, vec![b("alpha"), b("web")]);
}

#[test]
fn render_scan_round_trip() {
    let store = store_ab();
    let active = vec![b("alpha"), b("beta")];
    let out = render_hosts_file(&active, &store);
    let list = vec![b("alpha"), b("beta")];
    let recovered = get_used_hostnames_from_hosts_file(&out, &list);
    assert_eq!(recovered, active);
}

#[test]
fn unuse_removes_every_occurrence() {
    let active = vec![b("a"), b("b"), b("a")];
    let active = unuse_hostname(&active, &b("a"));
    assert_eq!(active, vec![b("b")]);
}

#[test]
fn renderer_skips_missing_profiles_silently() {
    let store = store_web();
    let active = vec![b("ghost"), b("web")];
    let out = render_hosts_file(&active, &store);
    assert_eq!(out, b("# hostname=web\n127.0.0.1 web.local\n"));
}

#[test]
fn renderer_keeps_input_order() {
    let store = store_ab();
    let active = vec![b("beta"), b("alpha")];
    let out = render_hosts_file(&active, &store);
    assert_eq!(
        out,
        b("# hostname=beta\n10.0.0.2 beta.local\n# hostname=alpha\n10.0.0.1 alpha.local\n")
    );
}

#[test]
fn empty_workspace_scenario() {
    // workspace empty, hosts file empty: the listing shows no rows
    let files: Vec<Vec<u8>> = Vec::new();
    let hosts: Vec<u8> = Vec::new();
    let active = get_used_hostnames_from_hosts_file(&hosts, &files);
    assert!(active.is_empty());
    let rows = list_rows(&files, &active);
    assert!(rows.is_empty());

    // `set web` creates an empty profile; `web` was not active, so the
    // hosts file is not rewritten and stays empty
    let store = vec![Profile { name: b("web"), content: Vec::new() }];
    assert_eq!(read_profile(&store, &b("web")), Some(&Vec::new()));
    let o = plan_command(Command::Edit(b("web")), active);
    assert!(!o.render);
    assert!(!o.delete);

    // after editing, `use web` writes web's block as the whole hosts file
    let store = vec![Profile { name: b("web"), content: b("127.0.0.1 web.local") }];
    let o = plan_command(Command::Use(b("web")), o.active);
    assert!(o.render);
    let hosts = render_hosts_file(&o.active, &store);
    assert_eq!(hosts, b("# hostname=web\n127.0.0.1 web.local"));

    // `rm web` drops the block and leaves the hosts file empty again
    let o = plan_command(Command::Rm(b("web")), o.active);
    assert!(o.render);
    assert!(o.delete);
    let hosts = render_hosts_file(&o.active, &store);
    assert!(hosts.is_empty());
}

#[test]
fn rm_unknown_name_still_deletes_and_rerenders() {
    let store = store_web();
    let active = vec![b("web")];
    let before = render_hosts_file(&active, &store);
    let o = plan_command(Command::Rm(b("ghost")), active);
    assert!(o.delete);
    assert!(!o.render);
    let after = render_hosts_file(&o.active, &store);
    assert_eq!(before, after);
}

#[test]
fn edit_active_name_rerenders() {
    let o = plan_command(Command::Edit(b("web")), vec![b("web")]);
    assert!(o.render);
    let o = plan_command(Command::Edit(b("web")), vec![b("other")]);
    assert!(!o.render);
}

#[test]
fn list_rows_marks_used_names() {
    let files = vec![b("alpha"), b("beta")];
    let used = vec![b("beta")];
    let rows = list_rows(&files, &used);
    assert_eq!(rows.len(), 2);
    assert_eq!(rows[0].name, b("alpha"));
    assert!(!rows[0].used);
    assert_eq!(rows[1].name, b("beta"));
    assert!(rows[1].used);
}

#[test]
fn transform_path_joins_workspace_dir() {
    assert_eq!(transform_path(&b("web")), b("/etc/ihosts/web"));
}

#[test]
fn base_name_takes_last_segment() {
    assert_eq!(base_name(&b("/etc/ihosts/web")), b("web"));
    assert_eq!(base_name(&b("web")), b("web"));
    assert_eq!(base_name(&b("/etc/ihosts/")), b(""));
}
