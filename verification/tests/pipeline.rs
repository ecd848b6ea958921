use compdb::engine::collect_resolved;
use compdb::engine::contains_path;
use compdb::engine::dedup_candidates;
use compdb::engine::expire;
use compdb::engine::filter_existing;
use compdb::engine::gen_variant;
use compdb::engine::reconcile;
use compdb::engine::synthesize;
use compdb::record::Command;
use compdb::record::RETENTION_SECS;

fn cmd(arguments: Vec<&str>, directory: &str, file: &str, created: u64) -> Command {
    Command {
        arguments: arguments.into_iter().map(|a| a.to_string()).collect(),
        directory: directory.to_string(),
        file: file.to_string(),
        created,
    }
}

fn args_of(c: &Command) -> Vec<String> {
    c.arguments.clone()
}

#[test]
fn set_ext_c_to_h() {
    let mut c = cmd(vec!["cc", "a.c"], "/p", "a.c", 0);
    assert!(c.set_ext("h"));
    assert_eq!(c.file, "a.h");
}

#[test]
fn set_ext_c_to_hpp() {
    let mut c = cmd(vec!["cc", "a.c"], "/p", "a.c", 0);
    assert!(c.set_ext("hpp"));
    assert_eq!(c.file, "a.hpp");
}

#[test]
fn set_ext_cpp_to_h() {
    let mut c = cmd(vec![], "/p", "b.cpp", 0);
    assert!(c.set_ext("h"));
    assert_eq!(c.file, "b.h");
}

#[test]
fn set_ext_cpp_to_hpp() {
    let mut c = cmd(vec![], "/p", "b.cpp", 0);
    assert!(c.set_ext("hpp"));
    assert_eq!(c.file, "b.hpp");
}

#[test]
fn set_ext_other_extension_unchanged() {
    let mut c = cmd(vec![], "/p", "notes.txt", 0);
    assert!(!c.set_ext("h"));
    assert_eq!(c.file, "notes.txt");
}

#[test]
fn set_ext_no_extension_unchanged() {
    let mut c = cmd(vec![], "/p", "Makefile", 0);
    assert!(!c.set_ext("h"));
    assert_eq!(c.file, "Makefile");
}

#[test]
fn fix_name_rewrites_exact_matches_only() {
    let mut c = cmd(vec!["cc", "a.c", "-o", "a.c.o", "a.c"], "/p", "a.h", 0);
    c.fix_name("a.c");
    assert_eq!(args_of(&c), vec!["cc", "a.h", "-o", "a.c.o", "a.h"]);
}

#[test]
fn fix_name_leaves_partial_matches() {
    let mut c = cmd(vec!["-include", "sub/a.c"], "/p", "a.h", 0);
    c.fix_name("a.c");
    assert_eq!(args_of(&c), vec!["-include", "sub/a.c"]);
}

#[test]
fn gen_variant_rewrites_file_and_arguments() {
    let c = cmd(vec!["cc", "a.c", "-o", "a.o"], "/p", "a.c", 7);
    let v = gen_variant(&c, "h").expect("source file must synthesize");
    assert_eq!(v.file, "a.h");
    assert_eq!(args_of(&v), vec!["cc", "a.h", "-o", "a.o"]);
    assert_eq!(v.directory, "/p");
    assert_eq!(v.created, 7);
}

#[test]
fn gen_variant_none_for_header() {
    let c = cmd(vec!["cc", "a.h"], "/p", "a.h", 0);
    assert!(gen_variant(&c, "h").is_none());
}

#[test]
fn synthesize_h_before_hpp_per_source() {
    let records = vec![cmd(vec!["cc", "x.cpp"], "/p", "x.cpp", 0)];
    let cands = synthesize(&records);
    let files: Vec<&str> = cands.iter().map(|c| c.file.as_str()).collect();
    assert_eq!(files, vec!["x.h", "x.hpp"]);
}

#[test]
fn synthesize_keeps_source_order() {
    let records = vec![
        cmd(vec![], "/p", "a.c", 0),
        cmd(vec![], "/p", "readme.md", 0),
        cmd(vec![], "/p", "b.cpp", 0),
    ];
    let cands = synthesize(&records);
    let files: Vec<&str> = cands.iter().map(|c| c.file.as_str()).collect();
    assert_eq!(files, vec!["a.h", "a.hpp", "b.h", "b.hpp"]);
}

#[test]
fn expire_boundary_is_inclusive() {
    let now: u64 = 100 * RETENTION_SECS;
    let records = vec![
        cmd(vec![], "/p", "on_edge.c", now - RETENTION_SECS),
        cmd(vec![], "/p", "too_old.c", now - RETENTION_SECS - 1),
        cmd(vec![], "/p", "fresh.c", now),
    ];
    let out = expire(&records, now);
    let files: Vec<&str> = out.iter().map(|c| c.file.as_str()).collect();
    assert_eq!(files, vec!["on_edge.c", "fresh.c"]);
}

#[test]
fn expire_keeps_everything_at_small_now() {
    let records = vec![cmd(vec![], "/p", "a.c", 0)];
    let out = expire(&records, RETENTION_SECS - 1);
    assert_eq!(out.len(), 1);
}

#[test]
fn collect_resolved_drops_unresolved() {
    let paths = vec![Some("/x".to_string()), None, Some("/y".to_string())];
    let index = collect_resolved(&paths);
    assert_eq!(index, vec!["/x".to_string(), "/y".to_string()]);
}

#[test]
fn contains_path_is_exact() {
    let index = vec!["/x/a.h".to_string(), "/x/b.h".to_string()];
    assert!(contains_path(&index, &"/x/a.h".to_string()));
    assert!(!contains_path(&index, &"/x/a".to_string()));
    assert!(!contains_path(&index, &"/x/a.hpp".to_string()));
}

#[test]
fn dedup_drops_indexed_and_unresolved_candidates() {
    let cands = vec![
        cmd(vec![], "/p", "kept.h", 0),
        cmd(vec![], "/p", "explicit.h", 0),
        cmd(vec![], "/p", "missing.h", 0),
    ];
    let paths = vec![Some("/p/kept.h".to_string()), Some("/p/explicit.h".to_string()), None];
    let index = vec!["/p/explicit.h".to_string()];
    let out = dedup_candidates(&cands, &paths, &index);
    let files: Vec<&str> = out.iter().map(|c| c.file.as_str()).collect();
    assert_eq!(files, vec!["kept.h"]);
}

#[test]
fn filter_existing_follows_flags() {
    let records = vec![cmd(vec![], "/p", "a.c", 0), cmd(vec![], "/p", "b.c", 0)];
    let flags = vec![false, true];
    let out = filter_existing(&records, &flags);
    let files: Vec<&str> = out.iter().map(|c| c.file.as_str()).collect();
    assert_eq!(files, vec!["b.c"]);
}

#[test]
fn expiry_scenario_drops_old_record_and_synthesizes_nothing() {
    let now: u64 = 100 * RETENTION_SECS;
    let forty_days: u64 = 40 * 24 * 3600;
    // The target exists on disk (the filesystem root), yet the record's age
    // alone removes it, and no header is inferred from it.
    let records = vec![cmd(vec!["cc", "old.c"], "/", ".", now - forty_days)];
    let out = reconcile(records, now);
    assert_eq!(out.len(), 0);
}

#[test]
fn reconcile_keeps_record_whose_target_exists() {
    let now: u64 = 100 * RETENTION_SECS;
    // The join of "/" and "." resolves and exists on any machine.
    let records = vec![cmd(vec!["ls", "/"], "/", ".", now)];
    let out = reconcile(records, now);
    assert_eq!(out.len(), 1);
    assert_eq!(out[0].file, ".");
    assert_eq!(out[0].directory, "/");
}

#[test]
fn reconcile_drops_record_whose_target_is_missing() {
    let now: u64 = 100 * RETENTION_SECS;
    let records = vec![cmd(vec![], "/", "no_such_file_here.c", now)];
    let out = reconcile(records, now);
    assert_eq!(out.len(), 0);
}
