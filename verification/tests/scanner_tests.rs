use ihost::scan::get_used_hostnames_from_hosts_file;

fn b(s: &str) -> Vec<u8> {
    s.as_bytes().to_vec()
}

#[test]
fn scanner_extracts_annotated_names_in_order() {
    let hosts = b("# hostname=alpha\n10.0.0.1 alpha.local\n# hostname=beta\n10.0.0.2 b\n");
    let list = vec![b("alpha"), b("beta")];
    let r = get_used_hostnames_from_hosts_file(&hosts, &list);
    assert_eq!(r, vec![b("alpha"), b("beta")]);
}

#[test]
fn scanner_filters_names_missing_from_store() {
    let hosts = b("# hostname=alpha\n# hostname=stale\n");
    let list = vec![b("alpha")];
    let r = get_used_hostnames_from_hosts_file(&hosts, &list);
    assert_eq!(r, vec![b("alpha")]);
}

#[test]
fn scanner_trims_surrounding_whitespace() {
    let hosts = b("   # hostname=alpha  \t\r\n");
    let list = vec![b("alpha")];
    let r = get_used_hostnames_from_hosts_file(&hosts, &list);
    assert_eq!(r, vec![b("alpha")]);
}

#[test]
fn scanner_ignores_plain_lines() {
    let hosts = b("127.0.0.1 localhost\n# a comment\n");
    let list = vec![b("alpha")];
    let r = get_used_hostnames_from_hosts_file(&hosts, &list);
    assert!(r.is_empty());
}

#[test]
fn scanner_skips_empty_split_segments() {
    // the candidate is the first non-empty segment of the split on the
    // annotation, not a bare prefix strip
    let hosts = b("# hostname=# hostname=alpha\n");
    let list = vec![b("alpha")];
    let r = get_used_hostnames_from_hosts_file(&hosts, &list);
    assert_eq!(r, vec![b("alpha")]);
}

#[test]
fn scanner_cuts_candidate_at_next_annotation() {
    let hosts = b("# hostname=alpha# hostname=beta\n");
    let list = vec![b("alpha"), b("beta")];
    let r = get_used_hostnames_from_hosts_file(&hosts, &list);
    assert_eq!(r, vec![b("alpha")]);
}

#[test]
fn scanner_bare_annotation_names_nothing() {
    let hosts = b("# hostname=\n");
    let list = vec![b("alpha")];
    let r = get_used_hostnames_from_hosts_file(&hosts, &list);
    assert!(r.is_empty());
}

#[test]
fn scanner_keeps_duplicate_entries() {
    let hosts = b("# hostname=alpha\n# hostname=alpha\n");
    let list = vec![b("alpha")];
    let r = get_used_hostnames_from_hosts_file(&hosts, &list);
    assert_eq!(r, vec![b("alpha"), b("alpha")]);
}

#[test]
fn scanner_accepts_final_unterminated_line() {
    let hosts = b("# hostname=alpha");
    let list = vec![b("alpha")];
    let r = get_used_hostnames_from_hosts_file(&hosts, &list);
    assert_eq!(r, vec![b("alpha")]);
}

#[test]
fn scanner_empty_hosts_file_names_nothing() {
    let hosts: Vec<u8> = Vec::new();
    let list = vec![b("alpha")];
    let r = get_used_hostnames_from_hosts_file(&hosts, &list);
    assert!(r.is_empty());
}
