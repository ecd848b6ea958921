//! Laws of the reconciliation pipeline, proved over the filesystem snapshot
//! model of [`crate::engine`].

use vstd::prelude::*;

use crate::engine::FsModel;
use crate::engine::collect_resolved_spec;
use crate::engine::dedup_spec;
use crate::engine::exists_cond;
use crate::engine::expire_spec;
use crate::engine::ext_h;
use crate::engine::ext_hpp;
use crate::engine::filter_flags_spec;
use crate::engine::flags_model;
use crate::engine::header_variant;
use crate::engine::lemma_concat_contains;
use crate::engine::lemma_dedup_sub;
use crate::engine::lemma_expire_recent;
use crate::engine::lemma_filter_flags_sub;
use crate::engine::lemma_synth_recent;
use crate::engine::paths_model;
use crate::engine::reconcile_model;
use crate::engine::resolve_of;
use crate::engine::synth_spec;
use crate::engine::variants_of;
use crate::record::CommandModel;
use crate::record::is_source_file;
use crate::record::recent;

verus! {

/// Expiry keeps a sequence of recent records whole.
proof fn lemma_expire_id(rs: Seq<CommandModel>, now: u64)
    requires
        forall|k: int| 0 <= k < rs.len() ==> recent(#[trigger] rs[k], now),
    ensures
        expire_spec(rs, now) == rs,
    decreases rs.len(),
{
    if rs.len() == 0 {
        assert(expire_spec(rs, now) =~= rs);
    } else {
        assert(forall|k: int|
            0 <= k < rs.drop_last().len() ==> recent(#[trigger] rs.drop_last()[k], now));
        lemma_expire_id(rs.drop_last(), now);
        assert(recent(rs.last(), now));
        assert(expire_spec(rs, now) =~= rs);
    }
}

/// The existence filter, run with the snapshot's own flags, keeps only
/// records whose target resolves and exists under the snapshot.
proof fn lemma_filter_model_cond(fs: FsModel, rs: Seq<CommandModel>)
    ensures
        forall|k: int|
            0 <= k < filter_flags_spec(rs, flags_model(fs, rs)).len() ==> exists_cond(
                fs,
                #[trigger] filter_flags_spec(rs, flags_model(fs, rs))[k],
            ),
    decreases rs.len(),
{
    if rs.len() == 0 {
    } else {
        assert(flags_model(fs, rs).drop_last() =~= flags_model(fs, rs.drop_last()));
        lemma_filter_model_cond(fs, rs.drop_last());
        let out = filter_flags_spec(rs, flags_model(fs, rs));
        let rest = filter_flags_spec(rs.drop_last(), flags_model(fs, rs.drop_last()));
        assert forall|k: int| 0 <= k < out.len() implies exists_cond(fs, out[k]) by {
            if flags_model(fs, rs).last() && k == out.len() - 1 {
                assert(out[k] == rs.last());
                assert(exists_cond(fs, rs[rs.len() - 1]));
            } else {
                assert(out[k] == rest[k]);
            }
        }
    }
}

/// A record whose target resolves and exists under the snapshot survives
/// the existence filter run with the snapshot's own flags.
proof fn lemma_filter_model_in(fs: FsModel, rs: Seq<CommandModel>, i: int)
    requires
        0 <= i < rs.len(),
        exists_cond(fs, rs[i]),
    ensures
        filter_flags_spec(rs, flags_model(fs, rs)).contains(rs[i]),
    decreases rs.len(),
{
    let out = filter_flags_spec(rs, flags_model(fs, rs));
    let rest = filter_flags_spec(rs.drop_last(), flags_model(fs, rs.drop_last()));
    assert(flags_model(fs, rs).drop_last() =~= flags_model(fs, rs.drop_last()));
    if i == rs.len() - 1 {
        assert(flags_model(fs, rs).last());
        assert(out.last() == rs[i]);
        assert(out.contains(rs[i]));
    } else {
        lemma_filter_model_in(fs, rs.drop_last(), i);
        assert(rs.drop_last()[i] == rs[i]);
        let j = choose|j: int| 0 <= j < rest.len() && rest[j] == rs[i];
        assert(out[j] == rs[i]);
        assert(out.contains(rs[i]));
    }
}

/// The existence filter keeps a sequence whole when every target resolves
/// and exists under the snapshot.
proof fn lemma_filter_model_id(fs: FsModel, rs: Seq<CommandModel>)
    requires
        forall|k: int| 0 <= k < rs.len() ==> exists_cond(fs, #[trigger] rs[k]),
    ensures
        filter_flags_spec(rs, flags_model(fs, rs)) == rs,
    decreases rs.len(),
{
    if rs.len() == 0 {
        assert(filter_flags_spec(rs, flags_model(fs, rs)) =~= rs);
    } else {
        assert(flags_model(fs, rs).drop_last() =~= flags_model(fs, rs.drop_last()));
        assert(forall|k: int|
            0 <= k < rs.drop_last().len() ==> exists_cond(fs, #[trigger] rs.drop_last()[k]));
        lemma_filter_model_id(fs, rs.drop_last());
        assert(exists_cond(fs, rs[rs.len() - 1]));
        assert(flags_model(fs, rs).last());
        assert(filter_flags_spec(rs, flags_model(fs, rs)) =~= rs);
    }
}

/// The existence filter drops a sequence whole when no target resolves to
/// an existing path under the snapshot.
proof fn lemma_filter_model_empty(fs: FsModel, rs: Seq<CommandModel>)
    requires
        forall|k: int| 0 <= k < rs.len() ==> !exists_cond(fs, #[trigger] rs[k]),
    ensures
        filter_flags_spec(rs, flags_model(fs, rs)) == Seq::<CommandModel>::empty(),
    decreases rs.len(),
{
    if rs.len() == 0 {
        assert(filter_flags_spec(rs, flags_model(fs, rs)) =~= Seq::<CommandModel>::empty());
    } else {
        assert(flags_model(fs, rs).drop_last() =~= flags_model(fs, rs.drop_last()));
        assert(forall|k: int|
            0 <= k < rs.drop_last().len() ==> !exists_cond(fs, #[trigger] rs.drop_last()[k]));
        lemma_filter_model_empty(fs, rs.drop_last());
        assert(!exists_cond(fs, rs[rs.len() - 1]));
        assert(!flags_model(fs, rs).last());
    }
}

/// The existence filter, run with the snapshot's own flags, distributes
/// over concatenation.
proof fn lemma_filter_model_concat(fs: FsModel, a: Seq<CommandModel>, b: Seq<CommandModel>)
    ensures
        filter_flags_spec(a + b, flags_model(fs, a + b)) == filter_flags_spec(
            a,
            flags_model(fs, a),
        ) + filter_flags_spec(b, flags_model(fs, b)),
    decreases b.len(),
{
    if b.len() == 0 {
        assert(a + b =~= a);
        assert(filter_flags_spec(b, flags_model(fs, b)) =~= Seq::<CommandModel>::empty());
        assert(filter_flags_spec(a, flags_model(fs, a)) + filter_flags_spec(
            b,
            flags_model(fs, b),
        ) =~= filter_flags_spec(a, flags_model(fs, a)));
    } else {
        lemma_filter_model_concat(fs, a, b.drop_last());
        let ab = a + b;
        assert(ab.drop_last() =~= a + b.drop_last());
        assert(flags_model(fs, ab).drop_last() =~= flags_model(fs, a + b.drop_last()));
        assert(flags_model(fs, b).drop_last() =~= flags_model(fs, b.drop_last()));
        assert(ab.last() == b.last());
        assert(flags_model(fs, ab).last() == exists_cond(fs, b.last()));
        assert(flags_model(fs, b).last() == exists_cond(fs, b.last()));
        assert(filter_flags_spec(ab, flags_model(fs, ab)) =~= filter_flags_spec(
            a,
            flags_model(fs, a),
        ) + filter_flags_spec(b, flags_model(fs, b)));
    }
}

/// A path stands in the index exactly when some record of the sequence
/// resolves to it.
proof fn lemma_collect_mem(paths: Seq<Option<Seq<char>>>, p: Seq<char>)
    ensures
        collect_resolved_spec(paths).contains(p) <==> exists|i: int|
            0 <= i < paths.len() && paths[i] == Option::Some(p),
    decreases paths.len(),
{
    if paths.len() == 0 {
    } else {
        lemma_collect_mem(paths.drop_last(), p);
        let out = collect_resolved_spec(paths);
        let rest = collect_resolved_spec(paths.drop_last());
        if out.contains(p) {
            let k = choose|k: int| 0 <= k < out.len() && out[k] == p;
            if paths.last() == Option::Some(p) {
                assert(paths[paths.len() - 1] == Option::Some(p));
            } else {
                match paths.last() {
                    Option::Some(q) => {
                        if k == out.len() - 1 {
                            assert(q == p);
                        } else {
                            assert(rest[k] == p);
                            assert(rest.contains(p));
                        }
                    },
                    Option::None => {
                        assert(rest[k] == p);
                        assert(rest.contains(p));
                    },
                }
                if rest.contains(p) {
                    let i = choose|i: int|
                        0 <= i < paths.drop_last().len() && paths.drop_last()[i] == Option::Some(
                            p,
                        );
                    assert(paths[i] == Option::Some(p));
                }
            }
        }
        if exists|i: int| 0 <= i < paths.len() && paths[i] == Option::Some(p) {
            let i = choose|i: int| 0 <= i < paths.len() && paths[i] == Option::Some(p);
            if i == paths.len() - 1 {
                assert(out.last() == p);
                assert(out.contains(p));
            } else {
                assert(paths.drop_last()[i] == Option::Some(p));
                assert(rest.contains(p));
                let k = choose|k: int| 0 <= k < rest.len() && rest[k] == p;
                assert(out[k] == p);
                assert(out.contains(p));
            }
        }
    }
}

/// Each synthesized candidate is a header variant of some source-file
/// record of the input.
proof fn lemma_synth_mem_fwd(rs: Seq<CommandModel>, k: int)
    requires
        0 <= k < synth_spec(rs).len(),
    ensures
        exists|i: int|
            0 <= i < rs.len() && is_source_file(#[trigger] rs[i].file) && (synth_spec(rs)[k]
                == header_variant(rs[i], ext_h()) || synth_spec(rs)[k] == header_variant(
                rs[i],
                ext_hpp(),
            )),
    decreases rs.len(),
{
    let out = synth_spec(rs);
    let rest = synth_spec(rs.drop_last());
    if k < rest.len() {
        lemma_synth_mem_fwd(rs.drop_last(), k);
        let i = choose|i: int|
            0 <= i < rs.drop_last().len() && is_source_file(#[trigger] rs.drop_last()[i].file) && (
            rest[k] == header_variant(rs.drop_last()[i], ext_h()) || rest[k] == header_variant(
                rs.drop_last()[i],
                ext_hpp(),
            ));
        assert(rs[i] == rs.drop_last()[i]);
        assert(out[k] == rest[k]);
    } else {
        assert(out[k] == variants_of(rs.last())[k - rest.len()]);
        assert(is_source_file(rs.last().file));
        assert(rs[rs.len() - 1] == rs.last());
        if k - rest.len() == 0 {
            assert(out[k] == header_variant(rs.last(), ext_h()));
        } else {
            assert(out[k] == header_variant(rs.last(), ext_hpp()));
        }
    }
}

/// Every source-file record of the input contributes both of its header
/// variants to the synthesized candidates.
proof fn lemma_synth_mem_rev(rs: Seq<CommandModel>, i: int)
    requires
        0 <= i < rs.len(),
        is_source_file(rs[i].file),
    ensures
        synth_spec(rs).contains(header_variant(rs[i], ext_h())),
        synth_spec(rs).contains(header_variant(rs[i], ext_hpp())),
    decreases rs.len(),
{
    let out = synth_spec(rs);
    let rest = synth_spec(rs.drop_last());
    if i == rs.len() - 1 {
        assert(out[rest.len() as int] == header_variant(rs[i], ext_h()));
        assert(out[rest.len() + 1 as int] == header_variant(rs[i], ext_hpp()));
        assert(out.contains(header_variant(rs[i], ext_h())));
        assert(out.contains(header_variant(rs[i], ext_hpp())));
    } else {
        lemma_synth_mem_rev(rs.drop_last(), i);
        assert(rs.drop_last()[i] == rs[i]);
        let kh = choose|k: int|
            0 <= k < rest.len() && rest[k] == header_variant(rs[i], ext_h());
        assert(out[kh] == header_variant(rs[i], ext_h()));
        let kp = choose|k: int|
            0 <= k < rest.len() && rest[k] == header_variant(rs[i], ext_hpp());
        assert(out[kp] == header_variant(rs[i], ext_hpp()));
        assert(out.contains(header_variant(rs[i], ext_h())));
        assert(out.contains(header_variant(rs[i], ext_hpp())));
    }
}

/// A header variant never names a source file itself, so synthesis never
/// cascades.
proof fn lemma_variant_not_source(c: CommandModel, ext: Seq<char>)
    requires
        is_source_file(c.file),
        ext == ext_h() || ext == ext_hpp(),
    ensures
        !is_source_file(header_variant(c, ext).file),
{
}

/// Each accepted candidate sits at some candidate position whose path
/// resolved and was absent from the index.
proof fn lemma_dedup_mem_fwd(
    cands: Seq<CommandModel>,
    paths: Seq<Option<Seq<char>>>,
    index: Seq<Seq<char>>,
    k: int,
)
    requires
        paths.len() == cands.len(),
        0 <= k < dedup_spec(cands, paths, index).len(),
    ensures
        exists|i: int|
            0 <= i < cands.len() && #[trigger] cands[i] == dedup_spec(cands, paths, index)[k]
                && paths[i] is Some && !index.contains(paths[i]->Some_0),
    decreases cands.len(),
{
    let out = dedup_spec(cands, paths, index);
    let rest = dedup_spec(cands.drop_last(), paths.drop_last(), index);
    let pushed = paths.last() is Some && !index.contains(paths.last()->Some_0);
    if pushed && k == out.len() - 1 {
        assert(cands[cands.len() - 1] == out[k]);
        assert(paths[cands.len() - 1] is Some);
    } else {
        assert(out[k] == rest[k]);
        lemma_dedup_mem_fwd(cands.drop_last(), paths.drop_last(), index, k);
        let i = choose|i: int|
            0 <= i < cands.drop_last().len() && #[trigger] cands.drop_last()[i] == rest[k]
                && paths.drop_last()[i] is Some && !index.contains(
                paths.drop_last()[i]->Some_0,
            );
        assert(cands[i] == rest[k]);
        assert(paths[i] == paths.drop_last()[i]);
    }
}

/// A candidate whose path resolved and is absent from the index is
/// accepted.
proof fn lemma_dedup_mem_rev(
    cands: Seq<CommandModel>,
    paths: Seq<Option<Seq<char>>>,
    index: Seq<Seq<char>>,
    i: int,
)
    requires
        paths.len() == cands.len(),
        0 <= i < cands.len(),
        paths[i] is Some,
        !index.contains(paths[i]->Some_0),
    ensures
        dedup_spec(cands, paths, index).contains(cands[i]),
    decreases cands.len(),
{
    let out = dedup_spec(cands, paths, index);
    let rest = dedup_spec(cands.drop_last(), paths.drop_last(), index);
    if i == cands.len() - 1 {
        assert(out.last() == cands[i]);
        assert(out.contains(cands[i]));
    } else {
        assert(paths.drop_last()[i] == paths[i]);
        lemma_dedup_mem_rev(cands.drop_last(), paths.drop_last(), index, i);
        assert(cands.drop_last()[i] == cands[i]);
        let k = choose|k: int| 0 <= k < rest.len() && rest[k] == cands[i];
        assert(out[k] == cands[i]);
        assert(out.contains(cands[i]));
    }
}

/// Retention: every record of the reconciled output was created within the
/// retention window ending at `now`.
pub proof fn lemma_reconcile_retention(rs: Seq<CommandModel>, now: u64, fs: FsModel)
    ensures
        forall|k: int|
            0 <= k < reconcile_model(rs, now, fs).len() ==> recent(
                #[trigger] reconcile_model(rs, now, fs)[k],
                now,
            ),
{
    let sv = expire_spec(rs, now);
    let index = collect_resolved_spec(paths_model(fs, sv));
    let cands = synth_spec(sv);
    let acc = dedup_spec(cands, paths_model(fs, cands), index);
    let merged = sv + acc;
    let out = reconcile_model(rs, now, fs);
    lemma_expire_recent(rs, now);
    lemma_synth_recent(sv, now);
    lemma_dedup_sub(cands, paths_model(fs, cands), index);
    lemma_filter_flags_sub(merged, flags_model(fs, merged));
    assert forall|k: int| 0 <= k < out.len() implies recent(out[k], now) by {
        let x = out[k];
        assert(merged.contains(x));
        lemma_concat_contains(sv, acc, x);
        if acc.contains(x) {
            let j = choose|j: int| 0 <= j < acc.len() && acc[j] == x;
            let m = choose|m: int| 0 <= m < cands.len() && cands[m] == x;
            assert(recent(cands[m], now));
        } else {
            let j = choose|j: int| 0 <= j < sv.len() && sv[j] == x;
            assert(recent(sv[j], now));
        }
    }
}

/// Existence: every record of the reconciled output resolves under the
/// snapshot to a path that exists on disk.
pub proof fn lemma_reconcile_existence(rs: Seq<CommandModel>, now: u64, fs: FsModel)
    ensures
        forall|k: int|
            0 <= k < reconcile_model(rs, now, fs).len() ==> exists_cond(
                fs,
                #[trigger] reconcile_model(rs, now, fs)[k],
            ),
{
    let sv = expire_spec(rs, now);
    let index = collect_resolved_spec(paths_model(fs, sv));
    let cands = synth_spec(sv);
    let acc = dedup_spec(cands, paths_model(fs, cands), index);
    let merged = sv + acc;
    lemma_filter_model_cond(fs, merged);
}

/// Header synthesis: a surviving source-file record whose header variant
/// resolves to an existing path that no explicit record claims puts that
/// variant — same directory, arguments rewritten — into the output.
pub proof fn lemma_reconcile_header_inference(
    rs: Seq<CommandModel>,
    now: u64,
    fs: FsModel,
    i: int,
    ext: Seq<char>,
)
    requires
        0 <= i < expire_spec(rs, now).len(),
        is_source_file(expire_spec(rs, now)[i].file),
        ext == ext_h() || ext == ext_hpp(),
        resolve_of(fs, header_variant(expire_spec(rs, now)[i], ext)) is Some,
        !collect_resolved_spec(paths_model(fs, expire_spec(rs, now))).contains(
            resolve_of(fs, header_variant(expire_spec(rs, now)[i], ext))->Some_0,
        ),
        fs.on_disk.contains(
            resolve_of(fs, header_variant(expire_spec(rs, now)[i], ext))->Some_0,
        ),
    ensures
        reconcile_model(rs, now, fs).contains(header_variant(expire_spec(rs, now)[i], ext)),
{
    let sv = expire_spec(rs, now);
    let index = collect_resolved_spec(paths_model(fs, sv));
    let cands = synth_spec(sv);
    let acc = dedup_spec(cands, paths_model(fs, cands), index);
    let merged = sv + acc;
    let v = header_variant(sv[i], ext);
    lemma_synth_mem_rev(sv, i);
    assert(cands.contains(v));
    let j = choose|j: int| 0 <= j < cands.len() && cands[j] == v;
    assert(paths_model(fs, cands)[j] == resolve_of(fs, v));
    lemma_dedup_mem_rev(cands, paths_model(fs, cands), index, j);
    assert(acc.contains(v));
    let m = choose|m: int| 0 <= m < acc.len() && acc[m] == v;
    assert(merged[sv.len() + m] == v);
    assert(exists_cond(fs, v));
    lemma_filter_model_in(fs, merged, sv.len() + m);
}

/// No two records of the sequence resolve, under the snapshot, to the same
/// canonical path.
pub open spec fn distinct_paths(fs: FsModel, rs: Seq<CommandModel>) -> bool {
    forall|i: int, j: int|
        #![trigger resolve_of(fs, rs[i]), resolve_of(fs, rs[j])]
        0 <= i < j < rs.len() && resolve_of(fs, rs[i]) is Some && resolve_of(fs, rs[j]) is Some
            ==> resolve_of(fs, rs[i])->Some_0 != resolve_of(fs, rs[j])->Some_0
}

/// The existence filter cannot introduce a path collision.
proof fn lemma_filter_preserves_distinct(fs: FsModel, rs: Seq<CommandModel>, flags: Seq<bool>)
    requires
        distinct_paths(fs, rs),
    ensures
        distinct_paths(fs, filter_flags_spec(rs, flags)),
    decreases rs.len(),
{
    if rs.len() == 0 || flags.len() != rs.len() {
    } else {
        assert forall|i: int, j: int|
            #![trigger resolve_of(fs, rs.drop_last()[i]), resolve_of(fs, rs.drop_last()[j])]
            0 <= i < j < rs.drop_last().len() && resolve_of(fs, rs.drop_last()[i]) is Some
                && resolve_of(fs, rs.drop_last()[j]) is Some implies resolve_of(
            fs,
            rs.drop_last()[i],
        )->Some_0 != resolve_of(fs, rs.drop_last()[j])->Some_0 by {
            assert(rs.drop_last()[i] == rs[i]);
            assert(rs.drop_last()[j] == rs[j]);
        }
        lemma_filter_preserves_distinct(fs, rs.drop_last(), flags.drop_last());
        lemma_filter_flags_sub(rs.drop_last(), flags.drop_last());
        let out = filter_flags_spec(rs, flags);
        let rest = filter_flags_spec(rs.drop_last(), flags.drop_last());
        assert forall|i: int, j: int|
            #![trigger resolve_of(fs, out[i]), resolve_of(fs, out[j])]
            0 <= i < j < out.len() && resolve_of(fs, out[i]) is Some && resolve_of(
                fs,
                out[j],
            ) is Some implies resolve_of(fs, out[i])->Some_0 != resolve_of(fs, out[j])->Some_0 by {
            if flags.last() && j == out.len() - 1 {
                assert(out[j] == rs.last());
                assert(out[i] == rest[i]);
                assert(rs.drop_last().contains(rest[i]));
                let m = choose|m: int|
                    0 <= m < rs.drop_last().len() && rs.drop_last()[m] == rest[i];
                assert(rs[m] == out[i]);
                assert(rs[rs.len() - 1] == out[j]);
            } else {
                assert(out[i] == rest[i]);
                assert(out[j] == rest[j]);
            }
        }
    }
}

/// Dedup cannot introduce a path collision.
proof fn lemma_dedup_preserves_distinct(
    fs: FsModel,
    cands: Seq<CommandModel>,
    paths: Seq<Option<Seq<char>>>,
    index: Seq<Seq<char>>,
)
    requires
        distinct_paths(fs, cands),
        paths.len() == cands.len(),
    ensures
        distinct_paths(fs, dedup_spec(cands, paths, index)),
    decreases cands.len(),
{
    if cands.len() == 0 {
    } else {
        assert forall|i: int, j: int|
            #![trigger resolve_of(fs, cands.drop_last()[i]), resolve_of(fs, cands.drop_last()[j])]
            0 <= i < j < cands.drop_last().len() && resolve_of(fs, cands.drop_last()[i]) is Some
                && resolve_of(fs, cands.drop_last()[j]) is Some implies resolve_of(
            fs,
            cands.drop_last()[i],
        )->Some_0 != resolve_of(fs, cands.drop_last()[j])->Some_0 by {
            assert(cands.drop_last()[i] == cands[i]);
            assert(cands.drop_last()[j] == cands[j]);
        }
        lemma_dedup_preserves_distinct(fs, cands.drop_last(), paths.drop_last(), index);
        lemma_dedup_sub(cands.drop_last(), paths.drop_last(), index);
        let out = dedup_spec(cands, paths, index);
        let rest = dedup_spec(cands.drop_last(), paths.drop_last(), index);
        let pushed = paths.last() is Some && !index.contains(paths.last()->Some_0);
        assert forall|i: int, j: int|
            #![trigger resolve_of(fs, out[i]), resolve_of(fs, out[j])]
            0 <= i < j < out.len() && resolve_of(fs, out[i]) is Some && resolve_of(
                fs,
                out[j],
            ) is Some implies resolve_of(fs, out[i])->Some_0 != resolve_of(fs, out[j])->Some_0 by {
            if pushed && j == out.len() - 1 {
                assert(out[j] == cands.last());
                assert(out[i] == rest[i]);
                assert(cands.drop_last().contains(rest[i]));
                let m = choose|m: int|
                    0 <= m < cands.drop_last().len() && cands.drop_last()[m] == rest[i];
                assert(cands[m] == out[i]);
                assert(cands[cands.len() - 1] == out[j]);
            } else {
                assert(out[i] == rest[i]);
                assert(out[j] == rest[j]);
            }
        }
    }
}

/// No duplicate targets: when no two expiry survivors resolve to the same
/// path and no two synthesized candidates do, no two records of the output
/// share a canonicalized full path. (Sibling sources such as `x.c` and
/// `x.cpp` in one directory synthesize colliding candidates, as do two
/// input records for one file; the premises exclude exactly those inputs.)
pub proof fn lemma_reconcile_distinct_targets(rs: Seq<CommandModel>, now: u64, fs: FsModel)
    requires
        distinct_paths(fs, expire_spec(rs, now)),
        distinct_paths(fs, synth_spec(expire_spec(rs, now))),
    ensures
        distinct_paths(fs, reconcile_model(rs, now, fs)),
{
    let sv = expire_spec(rs, now);
    let index = collect_resolved_spec(paths_model(fs, sv));
    let cands = synth_spec(sv);
    let acc = dedup_spec(cands, paths_model(fs, cands), index);
    let merged = sv + acc;
    lemma_dedup_preserves_distinct(fs, cands, paths_model(fs, cands), index);
    assert forall|i: int, j: int|
        #![trigger resolve_of(fs, merged[i]), resolve_of(fs, merged[j])]
        0 <= i < j < merged.len() && resolve_of(fs, merged[i]) is Some && resolve_of(
            fs,
            merged[j],
        ) is Some implies resolve_of(fs, merged[i])->Some_0 != resolve_of(
        fs,
        merged[j],
    )->Some_0 by {
        if j < sv.len() {
            assert(merged[i] == sv[i]);
            assert(merged[j] == sv[j]);
        } else if i >= sv.len() {
            assert(merged[i] == acc[i - sv.len()]);
            assert(merged[j] == acc[j - sv.len()]);
        } else {
            assert(merged[i] == sv[i]);
            assert(merged[j] == acc[j - sv.len()]);
            let p = resolve_of(fs, merged[i])->Some_0;
            lemma_dedup_mem_fwd(cands, paths_model(fs, cands), index, j - sv.len());
            let m = choose|m: int|
                0 <= m < cands.len() && #[trigger] cands[m] == acc[j - sv.len()]
                    && paths_model(fs, cands)[m] is Some && !index.contains(
                    paths_model(fs, cands)[m]->Some_0,
                );
            assert(paths_model(fs, cands)[m] == resolve_of(fs, merged[j]));
            lemma_collect_mem(paths_model(fs, sv), p);
            assert(paths_model(fs, sv)[i] == Option::Some(p));
            assert(index.contains(p));
        }
    }
    lemma_filter_preserves_distinct(fs, merged, flags_model(fs, merged));
}

/// A candidate synthesized from the reconciled output and not rejected by
/// the rebuilt index cannot point at an existing target.
proof fn lemma_rerun_candidate_dead(rs: Seq<CommandModel>, now: u64, fs: FsModel, k: int)
    requires
        0 <= k < dedup_spec(
            synth_spec(reconcile_model(rs, now, fs)),
            paths_model(fs, synth_spec(reconcile_model(rs, now, fs))),
            collect_resolved_spec(paths_model(fs, reconcile_model(rs, now, fs))),
        ).len(),
    ensures
        !exists_cond(
            fs,
            dedup_spec(
                synth_spec(reconcile_model(rs, now, fs)),
                paths_model(fs, synth_spec(reconcile_model(rs, now, fs))),
                collect_resolved_spec(paths_model(fs, reconcile_model(rs, now, fs))),
            )[k],
        ),
{
    let sv1 = expire_spec(rs, now);
    let idx1 = collect_resolved_spec(paths_model(fs, sv1));
    let c1 = synth_spec(sv1);
    let a1 = dedup_spec(c1, paths_model(fs, c1), idx1);
    let m1 = sv1 + a1;
    let o = reconcile_model(rs, now, fs);
    let idx2 = collect_resolved_spec(paths_model(fs, o));
    let c2 = synth_spec(o);
    let a2 = dedup_spec(c2, paths_model(fs, c2), idx2);
    let y = a2[k];
    lemma_filter_flags_sub(m1, flags_model(fs, m1));
    lemma_dedup_sub(c1, paths_model(fs, c1), idx1);
    lemma_dedup_mem_fwd(c2, paths_model(fs, c2), idx2, k);
    let m = choose|m: int|
        0 <= m < c2.len() && #[trigger] c2[m] == y && paths_model(fs, c2)[m] is Some
            && !idx2.contains(paths_model(fs, c2)[m]->Some_0);
    assert(paths_model(fs, c2)[m] == resolve_of(fs, y));
    let p = resolve_of(fs, y)->Some_0;
    assert(!idx2.contains(p));
    lemma_synth_mem_fwd(o, m);
    let i = choose|i: int|
        0 <= i < o.len() && is_source_file(#[trigger] o[i].file) && (y == header_variant(
            o[i],
            ext_h(),
        ) || y == header_variant(o[i], ext_hpp()));
    assert(m1.contains(o[i]));
    lemma_concat_contains(sv1, a1, o[i]);
    if a1.contains(o[i]) {
        let w = choose|w: int| 0 <= w < a1.len() && a1[w] == o[i];
        assert(c1.contains(a1[w]));
        let v = choose|v: int| 0 <= v < c1.len() && c1[v] == o[i];
        lemma_synth_mem_fwd(sv1, v);
        let u = choose|u: int|
            0 <= u < sv1.len() && is_source_file(#[trigger] sv1[u].file) && (c1[v]
                == header_variant(sv1[u], ext_h()) || c1[v] == header_variant(
                sv1[u],
                ext_hpp(),
            ));
        if c1[v] == header_variant(sv1[u], ext_h()) {
            lemma_variant_not_source(sv1[u], ext_h());
        } else {
            lemma_variant_not_source(sv1[u], ext_hpp());
        }
        assert(false);
    }
    assert(sv1.contains(o[i]));
    let t = choose|t: int| 0 <= t < sv1.len() && sv1[t] == o[i];
    lemma_synth_mem_rev(sv1, t);
    assert(c1.contains(y));
    if fs.on_disk.contains(p) {
        lemma_collect_mem(paths_model(fs, sv1), p);
        lemma_collect_mem(paths_model(fs, o), p);
        if idx1.contains(p) {
            let q = choose|q: int|
                0 <= q < paths_model(fs, sv1).len() && paths_model(fs, sv1)[q] == Option::Some(
                    p,
                );
            assert(resolve_of(fs, sv1[q]) == Option::Some(p));
            assert(exists_cond(fs, sv1[q]));
            assert(m1[q] == sv1[q]);
            lemma_filter_model_in(fs, m1, q);
            assert(o.contains(sv1[q]));
            let u = choose|u: int| 0 <= u < o.len() && o[u] == sv1[q];
            assert(paths_model(fs, o)[u] == Option::Some(p));
            assert(idx2.contains(p));
            assert(false);
        } else {
            let w = choose|w: int| 0 <= w < c1.len() && c1[w] == y;
            assert(paths_model(fs, c1)[w] == resolve_of(fs, y));
            lemma_dedup_mem_rev(c1, paths_model(fs, c1), idx1, w);
            assert(a1.contains(y));
            let q = choose|q: int| 0 <= q < a1.len() && a1[q] == y;
            assert(m1[sv1.len() + q] == y);
            assert(exists_cond(fs, y));
            lemma_filter_model_in(fs, m1, sv1.len() + q);
            assert(o.contains(y));
            let u = choose|u: int| 0 <= u < o.len() && o[u] == y;
            assert(paths_model(fs, o)[u] == Option::Some(p));
            assert(idx2.contains(p));
            assert(false);
        }
    }
}

/// Idempotence: reconciling the reconciled output again, at the same time
/// and against the same filesystem snapshot, changes nothing. Synthesized
/// headers already present are not re-synthesized or duplicated.
pub proof fn lemma_reconcile_idempotent(rs: Seq<CommandModel>, now: u64, fs: FsModel)
    ensures
        reconcile_model(reconcile_model(rs, now, fs), now, fs) == reconcile_model(rs, now, fs),
{
    let o = reconcile_model(rs, now, fs);
    let idx2 = collect_resolved_spec(paths_model(fs, o));
    let c2 = synth_spec(o);
    let a2 = dedup_spec(c2, paths_model(fs, c2), idx2);
    lemma_reconcile_retention(rs, now, fs);
    lemma_reconcile_existence(rs, now, fs);
    lemma_expire_id(o, now);
    assert forall|k: int| 0 <= k < a2.len() implies !exists_cond(fs, #[trigger] a2[k]) by {
        lemma_rerun_candidate_dead(rs, now, fs, k);
    }
    lemma_filter_model_concat(fs, o, a2);
    lemma_filter_model_id(fs, o);
    lemma_filter_model_empty(fs, a2);
    assert(reconcile_model(o, now, fs) == o + Seq::<CommandModel>::empty());
    assert(o + Seq::<CommandModel>::empty() =~= o);
}

} // verus!
