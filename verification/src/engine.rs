//! The reconciliation pipeline: expiry, header inference, dedup against
//! explicit records, and the final existence filter.
//!
//! The stages that decide purely from the records are exec functions with
//! exact contracts over the spec pipeline below. What only the live
//! filesystem can answer (whether a join resolves, whether a path exists) is
//! queried through the trusted items in [`crate::record`] and here; the
//! answers are then handed to the pure stages as plain values. The spec
//! pipeline [`reconcile_model`] states the whole transformation over a
//! filesystem snapshot [`FsModel`]; the laws in [`crate::laws`] are proved
//! of it.

use vstd::prelude::*;

use crate::record::Command;
use crate::record::CommandModel;
use crate::record::RETENTION_SECS;
use crate::record::is_source_file;
use crate::record::recent;
use crate::record::rewrite_args;
use crate::record::str_eq;
use crate::record::swapped_file;

verus! {

/// Step 1 of the pipeline, expiry: the records recent at `now`, in order.
pub open spec fn expire_spec(rs: Seq<CommandModel>, now: u64) -> Seq<CommandModel>
    decreases rs.len(),
{
    if rs.len() == 0 {
        Seq::empty()
    } else {
        let rest = expire_spec(rs.drop_last(), now);
        if recent(rs.last(), now) {
            rest.push(rs.last())
        } else {
            rest
        }
    }
}

/// The `.h` extension, as characters.
pub open spec fn ext_h() -> Seq<char> {
    seq!['h']
}

/// The `.hpp` extension, as characters.
pub open spec fn ext_hpp() -> Seq<char> {
    seq!['h', 'p', 'p']
}

/// The record inferred from `c` by substituting extension `ext`: same
/// directory and creation time, the file rewritten, and every argument that
/// exactly equalled the old file name rewritten to the new one.
pub open spec fn header_variant(c: CommandModel, ext: Seq<char>) -> CommandModel {
    CommandModel {
        arguments: rewrite_args(c.arguments, c.file, swapped_file(c.file, ext)),
        directory: c.directory,
        file: swapped_file(c.file, ext),
        created: c.created,
    }
}

/// The candidates a single record gives rise to: the `.h` variant then the
/// `.hpp` variant for a source-file record, nothing otherwise.
pub open spec fn variants_of(c: CommandModel) -> Seq<CommandModel> {
    if is_source_file(c.file) {
        seq![header_variant(c, ext_h()), header_variant(c, ext_hpp())]
    } else {
        Seq::empty()
    }
}

/// Step 3, header inference: every record's candidates, in input order.
pub open spec fn synth_spec(rs: Seq<CommandModel>) -> Seq<CommandModel>
    decreases rs.len(),
{
    if rs.len() == 0 {
        Seq::empty()
    } else {
        synth_spec(rs.drop_last()) + variants_of(rs.last())
    }
}

/// Step 2, the existing-target index: the resolved paths, `None`s dropped.
pub open spec fn collect_resolved_spec(paths: Seq<Option<Seq<char>>>) -> Seq<Seq<char>>
    decreases paths.len(),
{
    if paths.len() == 0 {
        Seq::empty()
    } else {
        let rest = collect_resolved_spec(paths.drop_last());
        match paths.last() {
            Option::Some(p) => rest.push(p),
            Option::None => rest,
        }
    }
}

/// Step 4, dedup: keep `cands[i]` iff `paths[i]` resolved and the index has
/// no explicit record for that path.
pub open spec fn dedup_spec(
    cands: Seq<CommandModel>,
    paths: Seq<Option<Seq<char>>>,
    index: Seq<Seq<char>>,
) -> Seq<CommandModel>
    decreases cands.len(),
{
    if cands.len() == 0 || paths.len() != cands.len() {
        Seq::empty()
    } else {
        let rest = dedup_spec(cands.drop_last(), paths.drop_last(), index);
        match paths.last() {
            Option::Some(p) => if !index.contains(p) {
                rest.push(cands.last())
            } else {
                rest
            },
            Option::None => rest,
        }
    }
}

/// Step 6, the existence filter: keep `rs[i]` iff `flags[i]`.
pub open spec fn filter_flags_spec(rs: Seq<CommandModel>, flags: Seq<bool>) -> Seq<CommandModel>
    decreases rs.len(),
{
    if rs.len() == 0 || flags.len() != rs.len() {
        Seq::empty()
    } else {
        let rest = filter_flags_spec(rs.drop_last(), flags.drop_last());
        if flags.last() {
            rest.push(rs.last())
        } else {
            rest
        }
    }
}

/// A snapshot of the filesystem facts the pipeline consults.
pub ghost struct FsModel {
    /// Partial map from a (directory, file) pair to the canonical path of
    /// their join; a pair outside the domain does not resolve.
    pub resolved: Map<(Seq<char>, Seq<char>), Seq<char>>,
    /// The canonical paths that exist on disk.
    pub on_disk: Set<Seq<char>>,
}

/// The full path of a record under the snapshot `fs`.
pub open spec fn resolve_of(fs: FsModel, c: CommandModel) -> Option<Seq<char>> {
    if fs.resolved.dom().contains((c.directory, c.file)) {
        Option::Some(fs.resolved[(c.directory, c.file)])
    } else {
        Option::None
    }
}

/// The full path of each record under `fs`, in order.
pub open spec fn paths_model(fs: FsModel, rs: Seq<CommandModel>) -> Seq<Option<Seq<char>>> {
    Seq::new(rs.len(), |i: int| resolve_of(fs, rs[i]))
}

/// Does the record's target resolve and currently exist on disk under `fs`?
pub open spec fn exists_cond(fs: FsModel, c: CommandModel) -> bool {
    match resolve_of(fs, c) {
        Option::Some(p) => fs.on_disk.contains(p),
        Option::None => false,
    }
}

/// The existence flag of each record under `fs`, in order.
pub open spec fn flags_model(fs: FsModel, rs: Seq<CommandModel>) -> Seq<bool> {
    Seq::new(rs.len(), |i: int| exists_cond(fs, rs[i]))
}

/// The whole pipeline over a filesystem snapshot: expiry, index, inference,
/// dedup, merge (originals first, accepted candidates after, in order), and
/// the final existence filter.
pub open spec fn reconcile_model(rs: Seq<CommandModel>, now: u64, fs: FsModel) -> Seq<
    CommandModel,
> {
    let survivors = expire_spec(rs, now);
    let index = collect_resolved_spec(paths_model(fs, survivors));
    let cands = synth_spec(survivors);
    let accepted = dedup_spec(cands, paths_model(fs, cands), index);
    let merged = survivors + accepted;
    filter_flags_spec(merged, flags_model(fs, merged))
}

/// Step 1, expiry: keep exactly the records recent at `now`, in order.
pub fn expire(records: &Vec<Command>, now: u64) -> (out: Vec<Command>)
    ensures
        out.deep_view() == expire_spec(records.deep_view(), now),
{
    let n = records.len();
    let mut out: Vec<Command> = Vec::new();
    let mut i: usize = 0;
    while i < n
        invariant
            i <= n,
            n == records.len(),
            out.deep_view() == expire_spec(records.deep_view().take(i as int), now),
        decreases n - i,
    {
        let keep = if now >= RETENTION_SECS {
            records[i].created >= now - RETENTION_SECS
        } else {
            true
        };
        let ghost pre = out.deep_view();
        if keep {
            out.push(records[i].duplicate());
        }
        proof {
            let s = records.deep_view();
            assert(s.take(i as int + 1).drop_last() =~= s.take(i as int));
            assert(s.take(i as int + 1).last() == s[i as int]);
            assert(keep == recent(s[i as int], now));
            if keep {
                assert(out.deep_view() =~= pre.push(s[i as int]));
            }
            assert(out.deep_view() == expire_spec(s.take(i as int + 1), now));
        }
        i += 1;
    }
    proof {
        assert(records.deep_view().take(n as int) =~= records.deep_view());
    }
    out
}

/// One inferred record: the variant of `c` with extension `ext`, or `None`
/// when `c` is not a source-file record.
pub fn gen_variant(c: &Command, ext: &str) -> (r: Option<Command>)
    ensures
        r is Some <==> is_source_file(c@.file),
        r matches Option::Some(v) ==> v@ == header_variant(c@, ext@),
{
    let mut cloned = c.duplicate();
    let old_name = cloned.file.clone();
    if cloned.set_ext(ext) {
        cloned.fix_name(old_name.as_str());
        proof {
            assert(cloned@ == header_variant(c@, ext@));
        }
        Option::Some(cloned)
    } else {
        Option::None
    }
}

/// Step 3, header inference: for every source-file record, the `.h` variant
/// then the `.hpp` variant, arguments rewritten; in input order.
pub fn synthesize(records: &Vec<Command>) -> (cands: Vec<Command>)
    ensures
        cands.deep_view() == synth_spec(records.deep_view()),
{
    let n = records.len();
    let mut cands: Vec<Command> = Vec::new();
    let mut i: usize = 0;
    while i < n
        invariant
            i <= n,
            n == records.len(),
            cands.deep_view() == synth_spec(records.deep_view().take(i as int)),
        decreases n - i,
    {
        let ghost pre = cands.deep_view();
        let ghost s = records.deep_view();
        match gen_variant(&records[i], "h") {
            Option::Some(v) => { cands.push(v); },
            Option::None => {},
        }
        match gen_variant(&records[i], "hpp") {
            Option::Some(v) => { cands.push(v); },
            Option::None => {},
        }
        proof {
            reveal_strlit("h");
            reveal_strlit("hpp");
            assert("h"@ =~= ext_h());
            assert("hpp"@ =~= ext_hpp());
            assert(s.take(i as int + 1).drop_last() =~= s.take(i as int));
            assert(s.take(i as int + 1).last() == s[i as int]);
            assert(cands.deep_view() =~= pre + variants_of(s[i as int]));
            assert(cands.deep_view() == synth_spec(s.take(i as int + 1)));
        }
        i += 1;
    }
    proof {
        assert(records.deep_view().take(n as int) =~= records.deep_view());
    }
    cands
}

/// Step 2, the existing-target index: the resolved paths, `None`s dropped.
pub fn collect_resolved(paths: &Vec<Option<String>>) -> (index: Vec<String>)
    ensures
        index.deep_view() == collect_resolved_spec(paths.deep_view()),
{
    let n = paths.len();
    let mut index: Vec<String> = Vec::new();
    let mut i: usize = 0;
    while i < n
        invariant
            i <= n,
            n == paths.len(),
            index.deep_view() == collect_resolved_spec(paths.deep_view().take(i as int)),
        decreases n - i,
    {
        let ghost pre = index.deep_view();
        let ghost s = paths.deep_view();
        match &paths[i] {
            Option::Some(p) => { index.push(p.clone()); },
            Option::None => {},
        }
        proof {
            assert(s.take(i as int + 1).drop_last() =~= s.take(i as int));
            assert(s.take(i as int + 1).last() == s[i as int]);
            if s[i as int] is Some {
                assert(index.deep_view() =~= pre.push(s[i as int]->Some_0));
            }
            assert(index.deep_view() == collect_resolved_spec(s.take(i as int + 1)));
        }
        i += 1;
    }
    proof {
        assert(paths.deep_view().take(n as int) =~= paths.deep_view());
    }
    index
}

/// Membership of `p` in the index, by exact string comparison.
pub fn contains_path(index: &Vec<String>, p: &String) -> (r: bool)
    ensures
        r == index.deep_view().contains(p@),
{
    let n = index.len();
    let mut i: usize = 0;
    while i < n
        invariant
            i <= n,
            n == index.len(),
            forall|j: int| 0 <= j < i ==> index.deep_view()[j] != p@,
        decreases n - i,
    {
        if str_eq(index[i].as_str(), p.as_str()) {
            proof {
                assert(index.deep_view()[i as int] == p@);
            }
            return true;
        }
        i += 1;
    }
    proof {
        assert(forall|j: int| 0 <= j < index.deep_view().len() ==> index.deep_view()[j] != p@);
    }
    false
}

/// Step 4, dedup: keep a candidate iff its path resolved and the index has
/// no explicit record for that path.
pub fn dedup_candidates(cands: &Vec<Command>, paths: &Vec<Option<String>>, index: &Vec<String>) -> (out: Vec<
    Command,
>)
    requires
        cands@.len() == paths@.len(),
    ensures
        out.deep_view() == dedup_spec(cands.deep_view(), paths.deep_view(), index.deep_view()),
{
    let n = cands.len();
    let mut out: Vec<Command> = Vec::new();
    let mut i: usize = 0;
    while i < n
        invariant
            i <= n,
            n == cands.len(),
            n == paths.len(),
            out.deep_view() == dedup_spec(
                cands.deep_view().take(i as int),
                paths.deep_view().take(i as int),
                index.deep_view(),
            ),
        decreases n - i,
    {
        let ghost pre = out.deep_view();
        let ghost cs = cands.deep_view();
        let ghost ps = paths.deep_view();
        match &paths[i] {
            Option::Some(p) => {
                if !contains_path(index, p) {
                    out.push(cands[i].duplicate());
                }
            },
            Option::None => {},
        }
        proof {
            assert(cs.take(i as int + 1).drop_last() =~= cs.take(i as int));
            assert(ps.take(i as int + 1).drop_last() =~= ps.take(i as int));
            assert(cs.take(i as int + 1).last() == cs[i as int]);
            assert(ps.take(i as int + 1).last() == ps[i as int]);
            if ps[i as int] is Some && !index.deep_view().contains(ps[i as int]->Some_0) {
                assert(out.deep_view() =~= pre.push(cs[i as int]));
            }
            assert(out.deep_view() == dedup_spec(
                cs.take(i as int + 1),
                ps.take(i as int + 1),
                index.deep_view(),
            ));
        }
        i += 1;
    }
    proof {
        assert(cands.deep_view().take(n as int) =~= cands.deep_view());
        assert(paths.deep_view().take(n as int) =~= paths.deep_view());
    }
    out
}

/// Step 6, the existence filter: keep a record iff its flag says its target
/// currently exists on disk.
pub fn filter_existing(records: &Vec<Command>, flags: &Vec<bool>) -> (out: Vec<Command>)
    requires
        records@.len() == flags@.len(),
    ensures
        out.deep_view() == filter_flags_spec(records.deep_view(), flags@),
{
    let n = records.len();
    let mut out: Vec<Command> = Vec::new();
    let mut i: usize = 0;
    while i < n
        invariant
            i <= n,
            n == records.len(),
            n == flags.len(),
            out.deep_view() == filter_flags_spec(
                records.deep_view().take(i as int),
                flags@.take(i as int),
            ),
        decreases n - i,
    {
        let ghost pre = out.deep_view();
        let ghost s = records.deep_view();
        if flags[i] {
            out.push(records[i].duplicate());
        }
        proof {
            assert(s.take(i as int + 1).drop_last() =~= s.take(i as int));
            assert(flags@.take(i as int + 1).drop_last() =~= flags@.take(i as int));
            assert(s.take(i as int + 1).last() == s[i as int]);
            if flags@[i as int] {
                assert(out.deep_view() =~= pre.push(s[i as int]));
            }
            assert(out.deep_view() == filter_flags_spec(
                s.take(i as int + 1),
                flags@.take(i as int + 1),
            ));
        }
        i += 1;
    }
    proof {
        assert(records.deep_view().take(n as int) =~= records.deep_view());
        assert(flags@.take(n as int) =~= flags@);
    }
    out
}

/// The full path of every record, one query per record.
///
/// The answers come from the live filesystem; nothing relates one call's
/// answers to another's.
pub fn resolve_all(records: &Vec<Command>) -> (paths: Vec<Option<String>>)
    ensures
        paths@.len() == records@.len(),
{
    let n = records.len();
    let mut paths: Vec<Option<String>> = Vec::new();
    let mut i: usize = 0;
    while i < n
        invariant
            i <= n,
            n == records.len(),
            paths@.len() == i,
        decreases n - i,
    {
        paths.push(records[i].full_path());
        i += 1;
    }
    paths
}

/// Relies on `std::path::Path::exists`: queries the live filesystem; nothing
/// is promised of the answer.
#[verifier::external_body]
fn path_exists(p: &str) -> bool {
    std::path::Path::new(p).exists()
}

/// Whether each record's target currently exists on disk, one query per
/// record; the path is resolved afresh, as the final filter demands.
pub fn exists_flags(records: &Vec<Command>) -> (flags: Vec<bool>)
    ensures
        flags@.len() == records@.len(),
{
    let n = records.len();
    let mut flags: Vec<bool> = Vec::new();
    let mut i: usize = 0;
    while i < n
        invariant
            i <= n,
            n == records.len(),
            flags@.len() == i,
        decreases n - i,
    {
        let f = match records[i].full_path() {
            Option::Some(p) => path_exists(p.as_str()),
            Option::None => false,
        };
        flags.push(f);
        i += 1;
    }
    flags
}

/// Membership in a concatenation is membership in one of the halves.
pub proof fn lemma_concat_contains<T>(a: Seq<T>, b: Seq<T>, x: T)
    ensures
        (a + b).contains(x) <==> a.contains(x) || b.contains(x),
{
    if (a + b).contains(x) {
        let k = choose|k: int| 0 <= k < (a + b).len() && (a + b)[k] == x;
        if k < a.len() {
            assert(a[k] == x);
        } else {
            assert(b[k - a.len()] == x);
        }
    }
    if a.contains(x) {
        let k = choose|k: int| 0 <= k < a.len() && a[k] == x;
        assert((a + b)[k] == x);
    }
    if b.contains(x) {
        let k = choose|k: int| 0 <= k < b.len() && b[k] == x;
        assert((a + b)[a.len() + k] == x);
    }
}

/// Everything the expiry filter keeps is recent.
pub proof fn lemma_expire_recent(rs: Seq<CommandModel>, now: u64)
    ensures
        forall|k: int|
            0 <= k < expire_spec(rs, now).len() ==> recent(
                #[trigger] expire_spec(rs, now)[k],
                now,
            ),
    decreases rs.len(),
{
    if rs.len() == 0 {
    } else {
        lemma_expire_recent(rs.drop_last(), now);
        let out = expire_spec(rs, now);
        let rest = expire_spec(rs.drop_last(), now);
        assert forall|k: int| 0 <= k < out.len() implies recent(out[k], now) by {
            if recent(rs.last(), now) && k == out.len() - 1 {
                assert(out[k] == rs.last());
            } else {
                assert(out[k] == rest[k]);
            }
        }
    }
}

/// A synthesized candidate carries the creation time of some input record.
pub proof fn lemma_synth_recent(rs: Seq<CommandModel>, now: u64)
    requires
        forall|k: int| 0 <= k < rs.len() ==> recent(#[trigger] rs[k], now),
    ensures
        forall|k: int|
            0 <= k < synth_spec(rs).len() ==> recent(#[trigger] synth_spec(rs)[k], now),
    decreases rs.len(),
{
    if rs.len() == 0 {
    } else {
        assert(forall|k: int|
            0 <= k < rs.drop_last().len() ==> recent(#[trigger] rs.drop_last()[k], now));
        lemma_synth_recent(rs.drop_last(), now);
        let out = synth_spec(rs);
        let rest = synth_spec(rs.drop_last());
        assert(recent(rs.last(), now));
        assert forall|k: int| 0 <= k < out.len() implies recent(out[k], now) by {
            if k < rest.len() {
                assert(out[k] == rest[k]);
            } else {
                assert(out[k] == variants_of(rs.last())[k - rest.len()]);
            }
        }
    }
}

/// Everything dedup keeps is one of the candidates.
pub proof fn lemma_dedup_sub(
    cands: Seq<CommandModel>,
    paths: Seq<Option<Seq<char>>>,
    index: Seq<Seq<char>>,
)
    ensures
        forall|k: int|
            0 <= k < dedup_spec(cands, paths, index).len() ==> cands.contains(
                #[trigger] dedup_spec(cands, paths, index)[k],
            ),
    decreases cands.len(),
{
    if cands.len() == 0 || paths.len() != cands.len() {
    } else {
        lemma_dedup_sub(cands.drop_last(), paths.drop_last(), index);
        let out = dedup_spec(cands, paths, index);
        let rest = dedup_spec(cands.drop_last(), paths.drop_last(), index);
        assert forall|k: int| 0 <= k < out.len() implies cands.contains(out[k]) by {
            if paths.last() is Some && !index.contains(paths.last()->Some_0) && k == out.len()
                - 1 {
                assert(out[k] == cands[cands.len() - 1]);
            } else {
                assert(out[k] == rest[k]);
                let j = choose|j: int|
                    0 <= j < cands.drop_last().len() && cands.drop_last()[j] == rest[k];
                assert(cands[j] == out[k]);
            }
        }
    }
}

/// Everything the existence filter keeps is an input record.
pub proof fn lemma_filter_flags_sub(rs: Seq<CommandModel>, flags: Seq<bool>)
    ensures
        forall|k: int|
            0 <= k < filter_flags_spec(rs, flags).len() ==> rs.contains(
                #[trigger] filter_flags_spec(rs, flags)[k],
            ),
    decreases rs.len(),
{
    if rs.len() == 0 || flags.len() != rs.len() {
    } else {
        lemma_filter_flags_sub(rs.drop_last(), flags.drop_last());
        let out = filter_flags_spec(rs, flags);
        let rest = filter_flags_spec(rs.drop_last(), flags.drop_last());
        assert forall|k: int| 0 <= k < out.len() implies rs.contains(out[k]) by {
            if flags.last() && k == out.len() - 1 {
                assert(out[k] == rs[rs.len() - 1]);
            } else {
                assert(out[k] == rest[k]);
                let j = choose|j: int|
                    0 <= j < rs.drop_last().len() && rs.drop_last()[j] == rest[k];
                assert(rs[j] == out[k]);
            }
        }
    }
}

/// Load the database's records, apply the fixed-order pipeline against the
/// live filesystem, and hand back the surviving records: all original
/// surviving records first, in input order, then the accepted synthesized
/// records, `.h` variant before `.hpp` variant per source.
///
/// The filesystem answers are not part of the contract: what is promised of
/// every outcome is that each output record is recent at `now` and is either
/// an expiry survivor of the input or a synthesized variant of one. The
/// stages that decide purely from the records carry exact contracts, and the
/// laws in [`crate::laws`] pin the whole pipeline down over a filesystem
/// snapshot.
pub fn reconcile(records: Vec<Command>, now: u64) -> (out: Vec<Command>)
    ensures
        forall|k: int|
            0 <= k < out.deep_view().len() ==> recent(#[trigger] out.deep_view()[k], now),
        forall|k: int|
            0 <= k < out.deep_view().len() ==> expire_spec(records.deep_view(), now).contains(
                #[trigger] out.deep_view()[k],
            ) || synth_spec(expire_spec(records.deep_view(), now)).contains(out.deep_view()[k]),
{
    let survivors = expire(&records, now);
    let spaths = resolve_all(&survivors);
    let index = collect_resolved(&spaths);
    let cands = synthesize(&survivors);
    let cpaths = resolve_all(&cands);
    let mut accepted = dedup_candidates(&cands, &cpaths, &index);
    let mut merged = survivors;
    merged.append(&mut accepted);
    let flags = exists_flags(&merged);
    let out = filter_existing(&merged, &flags);
    proof {
        let rsv = records.deep_view();
        let sv = expire_spec(rsv, now);
        let acc = dedup_spec(cands.deep_view(), cpaths.deep_view(), index.deep_view());
        assert(merged.deep_view() =~= sv + acc);
        lemma_filter_flags_sub(merged.deep_view(), flags@);
        lemma_expire_recent(rsv, now);
        lemma_synth_recent(sv, now);
        lemma_dedup_sub(cands.deep_view(), cpaths.deep_view(), index.deep_view());
        assert forall|k: int| 0 <= k < out.deep_view().len() implies recent(
            out.deep_view()[k],
            now,
        ) && (sv.contains(out.deep_view()[k]) || synth_spec(sv).contains(out.deep_view()[k])) by {
            let x = out.deep_view()[k];
            assert((sv + acc).contains(x));
            lemma_concat_contains(sv, acc, x);
            if acc.contains(x) {
                let j = choose|j: int| 0 <= j < acc.len() && acc[j] == x;
                assert(synth_spec(sv).contains(x));
            }
        }
    }
    out
}

} // verus!
