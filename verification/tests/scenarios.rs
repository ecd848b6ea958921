//! Scenario tests. The stages that consult the filesystem take its answers
//! as plain values, so each scenario hands in exactly the answers the story
//! describes and checks the pipeline's decisions; the `reconcile` tests use
//! paths whose existence the test run itself guarantees.

use compdb::engine::collect_resolved;
use compdb::engine::dedup_candidates;
use compdb::engine::expire;
use compdb::engine::filter_existing;
use compdb::engine::reconcile;
use compdb::engine::synthesize;
use compdb::record::Command;
use compdb::record::RETENTION_SECS;

fn cmd(arguments: Vec<&str>, directory: &str, file: &str, created: u64) -> Command {
    Command {
        arguments: arguments.into_iter().map(|a| a.to_string()).collect(),
        directory: directory.to_string(),
        file: file.to_string(),
        created,
    }
}

fn same_record(a: &Command, b: &Command) -> bool {
    a.arguments == b.arguments && a.directory == b.directory && a.file == b.file
        && a.created == b.created
}

/// A surviving record for `a.c` whose header `a.h` exists and has no
/// explicit record: the pipeline emits the `a.h` record with the same
/// directory and the file-name argument rewritten.
#[test]
fn header_synthesis_for_existing_header() {
    let now: u64 = 100 * RETENTION_SECS;
    let records = vec![cmd(vec!["cc", "a.c", "-o", "a.o"], "/p", "a.c", now)];
    let survivors = expire(&records, now);
    let index = collect_resolved(&vec![Some("/p/a.c".to_string())]);
    let cands = synthesize(&survivors);
    // On disk: a.c and a.h exist, a.hpp does not resolve.
    let cand_paths = vec![Some("/p/a.h".to_string()), None];
    let accepted = dedup_candidates(&cands, &cand_paths, &index);
    let mut merged = survivors;
    merged.extend(accepted);
    let out = filter_existing(&merged, &vec![true, true]);
    assert_eq!(out.len(), 2);
    assert_eq!(out[0].file, "a.c");
    assert_eq!(out[1].file, "a.h");
    assert_eq!(out[1].arguments, vec!["cc", "a.h", "-o", "a.o"]);
    assert_eq!(out[1].directory, "/p");
    assert_eq!(out[1].created, now);
}

/// A record for `b.cpp` whose header `b.hpp` does not exist on disk: the
/// output keeps the `b.cpp` record and synthesizes nothing.
#[test]
fn no_inference_for_missing_header() {
    let now: u64 = 100 * RETENTION_SECS;
    let records = vec![cmd(vec!["c++", "b.cpp"], "/p", "b.cpp", now)];
    let survivors = expire(&records, now);
    let index = collect_resolved(&vec![Some("/p/b.cpp".to_string())]);
    let cands = synthesize(&survivors);
    // Neither b.h nor b.hpp exists, so neither candidate resolves.
    let cand_paths = vec![None, None];
    let accepted = dedup_candidates(&cands, &cand_paths, &index);
    assert_eq!(accepted.len(), 0);
    let mut merged = survivors;
    merged.extend(accepted);
    let out = filter_existing(&merged, &vec![true]);
    assert_eq!(out.len(), 1);
    assert_eq!(out[0].file, "b.cpp");
}

/// Both `c.c` and an explicit record for `c.h` exist: the output holds
/// exactly one record targeting `c.h`, the explicit one.
#[test]
fn explicit_record_wins_over_synthesis() {
    let now: u64 = 100 * RETENTION_SECS;
    let explicit = cmd(vec!["cc", "-x", "c-header", "c.h"], "/p", "c.h", now);
    let records = vec![cmd(vec!["cc", "c.c"], "/p", "c.c", now), explicit];
    let survivors = expire(&records, now);
    let index = collect_resolved(
        &vec![Some("/p/c.c".to_string()), Some("/p/c.h".to_string())],
    );
    let cands = synthesize(&survivors);
    // Only the c.c record synthesizes; c.h resolves, c.hpp does not.
    let cand_paths = vec![Some("/p/c.h".to_string()), None];
    let accepted = dedup_candidates(&cands, &cand_paths, &index);
    assert_eq!(accepted.len(), 0);
    let mut merged = survivors;
    merged.extend(accepted);
    let out = filter_existing(&merged, &vec![true, true]);
    assert_eq!(out.len(), 2);
    let header_records: Vec<&Command> = out.iter().filter(|c| c.file == "c.h").collect();
    assert_eq!(header_records.len(), 1);
    assert_eq!(header_records[0].arguments, vec!["cc", "-x", "c-header", "c.h"]);
}

/// Running the staged pipeline on its own output, with the same filesystem
/// answers, reproduces that output: the already-present header record is
/// rejected by the rebuilt index instead of being synthesized again.
#[test]
fn second_run_reproduces_first_output() {
    let now: u64 = 100 * RETENTION_SECS;
    let records = vec![cmd(vec!["cc", "a.c", "-o", "a.o"], "/p", "a.c", now)];
    let survivors = expire(&records, now);
    let index = collect_resolved(&vec![Some("/p/a.c".to_string())]);
    let cands = synthesize(&survivors);
    let cand_paths = vec![Some("/p/a.h".to_string()), None];
    let accepted = dedup_candidates(&cands, &cand_paths, &index);
    let mut merged = survivors;
    merged.extend(accepted);
    let once = filter_existing(&merged, &vec![true, true]);

    // Second run, on the first run's output, same filesystem answers.
    let survivors2 = expire(&once, now);
    let index2 = collect_resolved(
        &vec![Some("/p/a.c".to_string()), Some("/p/a.h".to_string())],
    );
    let cands2 = synthesize(&survivors2);
    assert_eq!(cands2.len(), 2);
    // a.h still resolves; it is in the index now, so it is rejected.
    let cand_paths2 = vec![Some("/p/a.h".to_string()), None];
    let accepted2 = dedup_candidates(&cands2, &cand_paths2, &index2);
    assert_eq!(accepted2.len(), 0);
    let mut merged2 = survivors2;
    merged2.extend(accepted2);
    let twice = filter_existing(&merged2, &vec![true, true]);
    assert_eq!(once.len(), twice.len());
    for (a, b) in once.iter().zip(twice.iter()) {
        assert!(same_record(a, b));
    }
}

/// `full_path` is insensitive to how the path is spelled: two spellings of
/// the filesystem root resolve to the same canonical path.
#[test]
fn full_path_canonicalizes_spellings() {
    let plain = cmd(vec![], "/", ".", 0);
    let dotted = cmd(vec![], "/", "././.", 0);
    let p = plain.full_path().expect("the filesystem root exists");
    let q = dotted.full_path().expect("the filesystem root exists");
    assert_eq!(p, q);
    assert_eq!(p, "/");
    let missing = cmd(vec![], "/", "no_such_file_here.c", 0);
    assert_eq!(missing.full_path(), None);
}

/// End to end against the live filesystem: a fresh record whose target
/// exists survives `reconcile` unchanged, twice over.
#[test]
fn reconcile_twice_keeps_existing_target() {
    let now: u64 = 100 * RETENTION_SECS;
    let records = vec![cmd(vec!["ls", "/"], "/", ".", now)];
    let once = reconcile(records, now);
    assert_eq!(once.len(), 1);
    let copy: Vec<Command> = once
        .iter()
        .map(|c| {
            cmd(
                c.arguments.iter().map(|a| a.as_str()).collect(),
                &c.directory,
                &c.file,
                c.created,
            )
        })
        .collect();
    let twice = reconcile(copy, now);
    assert_eq!(twice.len(), 1);
    assert!(same_record(&once[0], &twice[0]));
}
