//! The post-completion reporter: order-independent totals over the recorded
//! analyses, the mean per-file processing time, and the merged, ranked
//! character frequencies.
use vstd::prelude::*;

use crate::stats::{analysis_matches_input, wf_analyses, FileAnalysis, FileInput};
use crate::strutil::push_char;
use crate::text::{
    first_seen, hist_count, hist_keys, hist_view_u128, hist_wf, lemma_first_seen_absorb,
    lemma_hist_count_at, lemma_hist_count_push, lemma_hist_count_update, lemma_hist_count_zero,
    CharHistogram,
};

verus! {

/// Adds one record's word count to a running total.
pub open spec fn words_step() -> spec_fn(FileAnalysis, int) -> int {
    |a: FileAnalysis, acc: int| acc + a.stats.word_count as int
}

/// Adds one record's line count to a running total.
pub open spec fn lines_step() -> spec_fn(FileAnalysis, int) -> int {
    |a: FileAnalysis, acc: int| acc + a.stats.line_count as int
}

/// Adds one record's byte size to a running total.
pub open spec fn bytes_step() -> spec_fn(FileAnalysis, int) -> int {
    |a: FileAnalysis, acc: int| acc + a.stats.size_bytes as int
}

/// Adds one record's processing time to a running total.
pub open spec fn nanos_step() -> spec_fn(FileAnalysis, int) -> int {
    |a: FileAnalysis, acc: int| acc + a.elapsed_nanos as int
}

/// The sum of the word counts of all records.
pub open spec fn total_words_of(s: Seq<FileAnalysis>) -> int {
    s.fold_right(words_step(), 0)
}

/// The sum of the line counts of all records.
pub open spec fn total_lines_of(s: Seq<FileAnalysis>) -> int {
    s.fold_right(lines_step(), 0)
}

/// The sum of the byte sizes of all records.
pub open spec fn total_bytes_of(s: Seq<FileAnalysis>) -> int {
    s.fold_right(bytes_step(), 0)
}

/// The sum of the processing times of all records, in nanoseconds.
pub open spec fn total_nanos_of(s: Seq<FileAnalysis>) -> int {
    s.fold_right(nanos_step(), 0)
}

/// A fold step that only ever adds its argument's contribution.
pub open spec fn additive_step<A>(f: spec_fn(A, int) -> int) -> bool {
    forall|a: A, acc: int| #[trigger] f(a, acc) == f(a, 0) + acc
}

proof fn lemma_fold_right_base_add<A>(s: Seq<A>, f: spec_fn(A, int) -> int, b: int)
    requires
        additive_step(f),
    ensures
        s.fold_right(f, b) == s.fold_right(f, 0) + b,
    decreases s.len(),
{
    if s.len() > 0 {
        lemma_fold_right_base_add(s.drop_last(), f, f(s.last(), b));
        lemma_fold_right_base_add(s.drop_last(), f, f(s.last(), 0));
    }
}

proof fn lemma_fold_take_step<A>(s: Seq<A>, f: spec_fn(A, int) -> int, i: int)
    requires
        additive_step(f),
        0 <= i < s.len(),
    ensures
        s.take(i + 1).fold_right(f, 0) == s.take(i).fold_right(f, 0) + f(s[i], 0),
{
    assert(s.take(i + 1).drop_last() =~= s.take(i));
    assert(s.take(i + 1).last() == s[i]);
    lemma_fold_right_base_add(s.take(i), f, f(s[i], 0));
}

proof fn lemma_fold_total_bound<A>(s: Seq<A>, f: spec_fn(A, int) -> int, bnd: int)
    requires
        additive_step(f),
        forall|a: A| 0 <= #[trigger] f(a, 0) <= bnd,
        0 <= bnd,
    ensures
        0 <= s.fold_right(f, 0) <= s.len() * bnd,
    decreases s.len(),
{
    if s.len() == 0 {
    } else {
        lemma_fold_total_bound(s.drop_last(), f, bnd);
        lemma_fold_right_base_add(s.drop_last(), f, f(s.last(), 0));
        assert((s.len() - 1) * bnd + bnd == s.len() * bnd) by (nonlinear_arith);
    }
}

proof fn lemma_steps_are_additive()
    ensures
        additive_step(words_step()),
        additive_step(lines_step()),
        additive_step(bytes_step()),
        additive_step(nanos_step()),
{
}

/// The totals a report shows, wide enough that no sum can overflow.
pub struct Totals {
    pub words: u128,
    pub lines: u128,
    pub bytes: u128,
}

/// Sums word, line and byte counts over all recorded analyses.
pub fn compute_totals(entries: &Vec<FileAnalysis>) -> (t: Totals)
    ensures
        t.words as int == total_words_of(entries@),
        t.lines as int == total_lines_of(entries@),
        t.bytes as int == total_bytes_of(entries@),
{
    let ghost s = entries@;
    proof {
        lemma_steps_are_additive();
        assert(s.take(0) =~= Seq::<FileAnalysis>::empty());
    }
    let mut words: u128 = 0;
    let mut lines: u128 = 0;
    let mut bytes: u128 = 0;
    let mut i: usize = 0;
    while i < entries.len()
        invariant
            i <= s.len(),
            s == entries@,
            words as int == total_words_of(s.take(i as int)),
            lines as int == total_lines_of(s.take(i as int)),
            bytes as int == total_bytes_of(s.take(i as int)),
            words as int <= (i as int) * 0xFFFF_FFFF_FFFF_FFFF,
            lines as int <= (i as int) * 0xFFFF_FFFF_FFFF_FFFF,
            bytes as int <= (i as int) * 0xFFFF_FFFF_FFFF_FFFF,
        decreases s.len() - i,
    {
        proof {
            lemma_steps_are_additive();
            lemma_fold_take_step(s, words_step(), i as int);
            lemma_fold_take_step(s, lines_step(), i as int);
            lemma_fold_take_step(s, bytes_step(), i as int);
            assert(usize::MAX as int <= 0xFFFF_FFFF_FFFF_FFFF);
            assert((i as int) * 0xFFFF_FFFF_FFFF_FFFF + 0xFFFF_FFFF_FFFF_FFFF == (i as int + 1)
                * 0xFFFF_FFFF_FFFF_FFFF) by (nonlinear_arith);
            assert((i as int + 1) * 0xFFFF_FFFF_FFFF_FFFF <= 0xFFFF_FFFF_FFFF_FFFF
                * 0xFFFF_FFFF_FFFF_FFFF) by (nonlinear_arith)
                requires
                    i as int + 1 <= 0xFFFF_FFFF_FFFF_FFFF,
            ;
        }
        let a = &entries[i];
        words = words + a.stats.word_count as u128;
        lines = lines + a.stats.line_count as u128;
        bytes = bytes + a.stats.size_bytes as u128;
        i += 1;
    }
    proof {
        assert(s.take(s.len() as int) =~= s);
    }
    Totals { words, lines, bytes }
}

/// The mean per-file processing time, in nanoseconds, rounded down.
pub fn average_nanos(entries: &Vec<FileAnalysis>) -> (avg: u128)
    requires
        entries@.len() > 0,
    ensures
        avg as int == total_nanos_of(entries@) / entries@.len() as int,
{
    let ghost s = entries@;
    proof {
        lemma_steps_are_additive();
        assert(s.take(0) =~= Seq::<FileAnalysis>::empty());
    }
    let mut nanos: u128 = 0;
    let mut i: usize = 0;
    while i < entries.len()
        invariant
            i <= s.len(),
            s == entries@,
            nanos as int == total_nanos_of(s.take(i as int)),
            nanos as int <= (i as int) * 0xFFFF_FFFF_FFFF_FFFF,
        decreases s.len() - i,
    {
        proof {
            lemma_steps_are_additive();
            lemma_fold_take_step(s, nanos_step(), i as int);
            assert((i as int) * 0xFFFF_FFFF_FFFF_FFFF + 0xFFFF_FFFF_FFFF_FFFF == (i as int + 1)
                * 0xFFFF_FFFF_FFFF_FFFF) by (nonlinear_arith);
            assert((i as int + 1) * 0xFFFF_FFFF_FFFF_FFFF <= 0xFFFF_FFFF_FFFF_FFFF
                * 0xFFFF_FFFF_FFFF_FFFF) by (nonlinear_arith)
                requires
                    i as int + 1 <= 0xFFFF_FFFF_FFFF_FFFF,
            ;
        }
        nanos = nanos + entries[i].elapsed_nanos as u128;
        i += 1;
    }
    proof {
        assert(s.take(s.len() as int) =~= s);
        lemma_fold_total_bound(s, nanos_step(), 0xFFFF_FFFF_FFFF_FFFF);
    }
    nanos / (entries.len() as u128)
}

/// Totals do not depend on the order in which workers delivered their
/// results: any two aggregates holding the same records, however arranged,
/// report the same word, line, byte and time sums.
pub proof fn lemma_totals_order_independent(e1: Seq<FileAnalysis>, e2: Seq<FileAnalysis>)
    requires
        e1.to_multiset() == e2.to_multiset(),
    ensures
        total_words_of(e1) == total_words_of(e2),
        total_lines_of(e1) == total_lines_of(e2),
        total_bytes_of(e1) == total_bytes_of(e2),
        total_nanos_of(e1) == total_nanos_of(e2),
{
    assert(vstd::seq_lib::commutative_foldr(words_step()));
    assert(vstd::seq_lib::commutative_foldr(lines_step()));
    assert(vstd::seq_lib::commutative_foldr(bytes_step()));
    assert(vstd::seq_lib::commutative_foldr(nanos_step()));
    vstd::seq_lib::lemma_fold_right_permutation(e1, e2, words_step(), 0);
    vstd::seq_lib::lemma_fold_right_permutation(e1, e2, lines_step(), 0);
    vstd::seq_lib::lemma_fold_right_permutation(e1, e2, bytes_step(), 0);
    vstd::seq_lib::lemma_fold_right_permutation(e1, e2, nanos_step(), 0);
}

/// Analyzing the same unchanged input set twice yields the same totals:
/// any two runs over equal inputs produce entry lists with equal sums.
pub proof fn lemma_rerun_same_totals(
    e1: Seq<FileAnalysis>,
    e2: Seq<FileAnalysis>,
    inputs: Seq<FileInput>,
)
    requires
        e1.len() == inputs.len(),
        e2.len() == inputs.len(),
        forall|i: int| 0 <= i < inputs.len() ==> analysis_matches_input(#[trigger] e1[i], inputs[i]),
        forall|i: int| 0 <= i < inputs.len() ==> analysis_matches_input(#[trigger] e2[i], inputs[i]),
    ensures
        total_words_of(e1) == total_words_of(e2),
        total_lines_of(e1) == total_lines_of(e2),
        total_bytes_of(e1) == total_bytes_of(e2),
        total_nanos_of(e1) == total_nanos_of(e2),
    decreases e1.len(),
{
    if e1.len() > 0 {
        let n = e1.len() - 1;
        lemma_rerun_same_totals(e1.drop_last(), e2.drop_last(), inputs.drop_last());
        assert(analysis_matches_input(e1[n as int], inputs[n as int]));
        assert(analysis_matches_input(e2[n as int], inputs[n as int]));
        assert(e1.last().stats.word_count == e2.last().stats.word_count);
        assert(e1.last().stats.line_count == e2.last().stats.line_count);
        assert(e1.last().stats.size_bytes == e2.last().stats.size_bytes);
        assert(e1.last().elapsed_nanos == e2.last().elapsed_nanos);
        lemma_steps_are_additive();
        lemma_fold_right_base_add(e1.drop_last(), words_step(), e1.last().stats.word_count as int);
        lemma_fold_right_base_add(e2.drop_last(), words_step(), e2.last().stats.word_count as int);
        lemma_fold_right_base_add(e1.drop_last(), lines_step(), e1.last().stats.line_count as int);
        lemma_fold_right_base_add(e2.drop_last(), lines_step(), e2.last().stats.line_count as int);
        lemma_fold_right_base_add(e1.drop_last(), bytes_step(), e1.last().stats.size_bytes as int);
        lemma_fold_right_base_add(e2.drop_last(), bytes_step(), e2.last().stats.size_bytes as int);
        lemma_fold_right_base_add(e1.drop_last(), nanos_step(), e1.last().elapsed_nanos as int);
        lemma_fold_right_base_add(e2.drop_last(), nanos_step(), e2.last().elapsed_nanos as int);
    }
}

/// The keys contributed by every record, file by file, in recorded order.
pub open spec fn all_keys(s: Seq<FileAnalysis>) -> Seq<char>
    decreases s.len(),
{
    if s.len() == 0 {
        Seq::empty()
    } else {
        all_keys(s.drop_last()) + hist_keys(s.last().stats.char_frequencies@)
    }
}

/// The total count that all records together give to character `c`.
pub open spec fn merged_count(s: Seq<FileAnalysis>, c: char) -> int
    decreases s.len(),
{
    if s.len() == 0 {
        0
    } else {
        merged_count(s.drop_last(), c) + hist_count(s.last().stats.char_frequencies@, c)
    }
}

/// The merged frequency table: one entry per distinct character, in the
/// order a single pass over the records first meets them, each carrying the
/// summed count.
pub open spec fn merged_hist_of(s: Seq<FileAnalysis>) -> Seq<(char, int)> {
    Seq::new(
        first_seen(all_keys(s)).len(),
        |i: int| (first_seen(all_keys(s))[i], merged_count(s, first_seen(all_keys(s))[i])),
    )
}

proof fn lemma_hist_entry_bounds(h: CharHistogram)
    ensures
        forall|j: int| 0 <= j < h@.len() ==> 0 <= (#[trigger] h@[j]).1 <= usize::MAX,
{
    assert forall|j: int| 0 <= j < h@.len() implies 0 <= (#[trigger] h@[j]).1 <= usize::MAX by {
        assert(h@[j].1 == h.entries@[j].1 as int);
    }
}

proof fn lemma_hist_count_single_bound(h: Seq<(char, int)>, c: char, bnd: int)
    requires
        hist_wf(h),
        forall|j: int| 0 <= j < h.len() ==> 0 <= (#[trigger] h[j]).1 <= bnd,
        0 <= bnd,
    ensures
        0 <= hist_count(h, c) <= bnd,
{
    if exists|k: int| 0 <= k < h.len() && (#[trigger] h[k]).0 == c {
        let k = choose|k: int| 0 <= k < h.len() && (#[trigger] h[k]).0 == c;
        lemma_hist_count_at(h, k);
    } else {
        lemma_hist_count_zero(h, c);
    }
}

proof fn lemma_merged_count_bound(s: Seq<FileAnalysis>, c: char)
    requires
        wf_analyses(s),
    ensures
        0 <= merged_count(s, c) <= s.len() * (usize::MAX as int),
    decreases s.len(),
{
    if s.len() > 0 {
        assert(forall|i: int| 0 <= i < s.drop_last().len() ==> s.drop_last()[i] == s[i]);
        lemma_merged_count_bound(s.drop_last(), c);
        let h = s.last().stats.char_frequencies;
        assert(hist_wf(h@)) by {
            assert(s[s.len() - 1].stats.char_frequencies == h);
        }
        lemma_hist_entry_bounds(h);
        lemma_hist_count_single_bound(h@, c, usize::MAX as int);
        assert((s.len() - 1) * (usize::MAX as int) + (usize::MAX as int) == s.len() * (
        usize::MAX as int)) by (nonlinear_arith);
    }
}

/// The index of the entry keyed by `c` in the merged table, if one exists.
fn find_key_u128(entries: &Vec<(char, u128)>, c: char) -> (r: Option<usize>)
    ensures
        match r {
            Some(k) => k < entries@.len() && entries@[k as int].0 == c,
            None => forall|j: int| 0 <= j < entries@.len() ==> (#[trigger] entries@[j]).0 != c,
        },
{
    let mut k: usize = 0;
    while k < entries.len()
        invariant
            k <= entries@.len(),
            forall|j: int| 0 <= j < k ==> (#[trigger] entries@[j]).0 != c,
        decreases entries@.len() - k,
    {
        if entries[k].0 == c {
            return Some(k);
        }
        k += 1;
    }
    None
}

/// Adds one file's frequencies into the running merged table.
fn merge_one(m: &mut Vec<(char, u128)>, h: &CharHistogram)
    requires
        hist_wf(hist_view_u128(old(m)@)),
        hist_wf(h@),
        forall|c: char| 0 <= #[trigger] hist_count(hist_view_u128(old(m)@), c),
        forall|c: char|
            #[trigger] hist_count(hist_view_u128(old(m)@), c) + (usize::MAX as int)
                <= u128::MAX as int,
    ensures
        hist_wf(hist_view_u128(final(m)@)),
        hist_keys(hist_view_u128(final(m)@)) == first_seen(
            hist_keys(hist_view_u128(old(m)@)) + hist_keys(h@),
        ),
        forall|c: char|
            #[trigger] hist_count(hist_view_u128(final(m)@), c) == hist_count(
                hist_view_u128(old(m)@),
                c,
            ) + hist_count(h@, c),
{
    let ghost v0 = hist_view_u128(old(m)@);
    let ghost hk = hist_keys(h@);
    let n = h.len();
    let mut j: usize = 0;
    proof {
        lemma_hist_entry_bounds(*h);
        assert(h@.take(0) =~= Seq::<(char, int)>::empty());
        assert(hk.take(0) =~= Seq::<char>::empty());
        assert(hist_keys(v0) + hk.take(0) =~= hist_keys(v0));
        assert forall|a: int, b: int|
            0 <= a < b < hist_keys(v0).len() implies hist_keys(v0)[a] != hist_keys(v0)[b] by {
            assert(v0[a].0 == hist_keys(v0)[a] && v0[b].0 == hist_keys(v0)[b]);
        }
        crate::text::lemma_first_seen_of_nodup(hist_keys(v0));
        assert forall|c: char| #[trigger] hist_count(hist_view_u128(m@), c) == hist_count(v0, c)
            + hist_count(h@.take(0), c) by {
            lemma_hist_count_zero(h@.take(0), c);
        }
    }
    while j < n
        invariant
            j <= n,
            n == h@.len(),
            hist_wf(h@),
            hist_wf(hist_view_u128(m@)),
            hist_keys(hist_view_u128(m@)) == first_seen(hist_keys(v0) + hist_keys(h@).take(
                j as int,
            )),
            forall|c: char|
                #[trigger] hist_count(hist_view_u128(m@), c) == hist_count(v0, c) + hist_count(
                    h@.take(j as int),
                    c,
                ),
            forall|c: char| 0 <= #[trigger] hist_count(v0, c),
            forall|c: char|
                #[trigger] hist_count(v0, c) + (usize::MAX as int) <= u128::MAX as int,
            forall|jj: int| 0 <= jj < h@.len() ==> 0 <= (#[trigger] h@[jj]).1 <= usize::MAX,
        decreases n - j,
    {
        let e = h.entry_at(j);
        let c = e.0;
        let ghost pre = h@.take(j as int);
        let ghost post = h@.take(j as int + 1);
        proof {
            assert(post.drop_last() =~= pre);
            assert(post =~= pre.push(h@[j as int]));
            assert(hist_keys(h@).take(j as int + 1) =~= hist_keys(h@).take(j as int).push(c));
            assert forall|c2: char| #[trigger] hist_count(post, c2) == hist_count(pre, c2) + (
            if h@[j as int].0 == c2 {
                h@[j as int].1
            } else {
                0int
            }) by {
                lemma_hist_count_push(pre, h@[j as int], c2);
            }
            // a well-formed prefix keeps counts within one entry's bound
            assert(hist_wf(post)) by {
                assert(forall|a: int| 0 <= a < post.len() ==> post[a] == h@[a]);
            }
            assert forall|a: int| 0 <= a < post.len() implies 0 <= (#[trigger] post[a]).1
                <= usize::MAX by {
                assert(post[a] == h@[a]);
            }
            lemma_hist_count_single_bound(post, c, usize::MAX as int);
        }
        match find_key_u128(m, c) {
            Some(k) => {
                let cur = m[k].1;
                let ghost v = hist_view_u128(m@);
                proof {
                    assert(v[k as int].0 == c && v[k as int].1 == cur as int);
                    lemma_hist_count_at(v, k as int);
                    assert(cur as int == hist_count(v0, c) + hist_count(pre, c));
                    assert(hist_count(post, c) <= usize::MAX as int);
                    assert(0 <= hist_count(pre, c)) by {
                        lemma_hist_count_single_bound(pre, c, usize::MAX as int);
                        assert(hist_wf(pre)) by {
                            assert(forall|a: int| 0 <= a < pre.len() ==> pre[a] == h@[a]);
                        }
                        assert forall|a: int| 0 <= a < pre.len() implies 0 <= (
                        #[trigger] pre[a]).1 <= usize::MAX by {
                            assert(pre[a] == h@[a]);
                        }
                    }
                    assert(cur as int + h@[j as int].1 == hist_count(v0, c) + hist_count(
                        post,
                        c,
                    ));
                    assert(hist_count(v0, c) + hist_count(post, c) <= u128::MAX as int);
                    // the key is already present, so the key list does not grow
                    assert(hist_keys(v).contains(c)) by {
                        assert(hist_keys(v)[k as int] == c);
                    }
                    crate::text::lemma_first_seen_contains(
                        hist_keys(v0) + hist_keys(h@).take(j as int),
                        c,
                    );
                    assert(first_seen(hist_keys(v0) + hist_keys(h@).take(j as int + 1))
                        == first_seen(hist_keys(v0) + hist_keys(h@).take(j as int))) by {
                        assert((hist_keys(v0) + hist_keys(h@).take(j as int + 1)).drop_last()
                            =~= hist_keys(v0) + hist_keys(h@).take(j as int));
                        assert((hist_keys(v0) + hist_keys(h@).take(j as int + 1)).last() == c);
                    }
                }
                let cnt = e.1;
                m.set(k, (c, cur + cnt as u128));
                proof {
                    let v2 = hist_view_u128(m@);
                    assert(v2 =~= v.update(k as int, (c, cur as int + cnt as int)));
                    assert forall|c2: char| #[trigger] hist_count(v2, c2) == hist_count(v0, c2)
                        + hist_count(post, c2) by {
                        lemma_hist_count_update(v, k as int, cur as int + cnt as int, c2);
                    }
                    assert(hist_keys(v2) =~= hist_keys(v));
                    assert(hist_wf(v2)) by {
                        assert(forall|a: int| 0 <= a < v2.len() ==> (#[trigger] v2[a]).0
                            == v[a].0);
                    }
                }
            },
            None => {
                let ghost v = hist_view_u128(m@);
                proof {
                    assert(!hist_keys(v).contains(c)) by {
                        if hist_keys(v).contains(c) {
                            let t = choose|t: int|
                                0 <= t < hist_keys(v).len() && hist_keys(v)[t] == c;
                            assert(v[t].0 == c);
                        }
                    }
                    lemma_hist_count_zero(v, c);
                    assert(hist_count(v0, c) + hist_count(pre, c) == 0);
                    assert(0 <= hist_count(pre, c)) by {
                        assert(hist_wf(pre)) by {
                            assert(forall|a: int| 0 <= a < pre.len() ==> pre[a] == h@[a]);
                        }
                        assert forall|a: int| 0 <= a < pre.len() implies 0 <= (
                        #[trigger] pre[a]).1 <= usize::MAX by {
                            assert(pre[a] == h@[a]);
                        }
                        lemma_hist_count_single_bound(pre, c, usize::MAX as int);
                    }
                    crate::text::lemma_first_seen_contains(
                        hist_keys(v0) + hist_keys(h@).take(j as int),
                        c,
                    );
                    assert(first_seen(hist_keys(v0) + hist_keys(h@).take(j as int + 1))
                        == first_seen(hist_keys(v0) + hist_keys(h@).take(j as int)).push(c)) by {
                        assert((hist_keys(v0) + hist_keys(h@).take(j as int + 1)).drop_last()
                            =~= hist_keys(v0) + hist_keys(h@).take(j as int));
                        assert((hist_keys(v0) + hist_keys(h@).take(j as int + 1)).last() == c);
                    }
                }
                let cnt = e.1;
                m.push((c, cnt as u128));
                proof {
                    let v2 = hist_view_u128(m@);
                    assert(v2 =~= v.push((c, cnt as int)));
                    assert forall|c2: char| #[trigger] hist_count(v2, c2) == hist_count(v0, c2)
                        + hist_count(post, c2) by {
                        lemma_hist_count_push(v, (c, cnt as int), c2);
                    }
                    assert(hist_keys(v2) =~= hist_keys(v).push(c));
                    assert(hist_wf(v2)) by {
                        assert(forall|a: int| 0 <= a < v.len() ==> (#[trigger] v2[a]).0
                            == v[a].0);
                        assert(v2[v.len() as int].0 == c);
                        assert forall|a: int| 0 <= a < v.len() implies (#[trigger] v2[a]).0 != c
                            by {
                            assert(v[a].0 != c);
                        }
                    }
                }
            },
        }
        j += 1;
    }
    proof {
        assert(h@.take(n as int) =~= h@);
        assert(hist_keys(h@).take(n as int) =~= hist_keys(h@));
    }
}

/// Merges every record's character frequencies into one table: one entry per
/// distinct character, in the order a pass over the records first meets
/// them, counts summed.
pub fn merge_frequencies(entries: &Vec<FileAnalysis>) -> (m: Vec<(char, u128)>)
    requires
        wf_analyses(entries@),
    ensures
        hist_view_u128(m@) == merged_hist_of(entries@),
        hist_wf(hist_view_u128(m@)),
{
    let ghost s = entries@;
    let mut m: Vec<(char, u128)> = Vec::new();
    let mut i: usize = 0;
    proof {
        assert(s.take(0) =~= Seq::<FileAnalysis>::empty());
        assert(hist_view_u128(m@) =~= Seq::<(char, int)>::empty());
        assert(hist_keys(hist_view_u128(m@)) =~= first_seen(all_keys(s.take(0))));
        assert forall|c: char| #[trigger] hist_count(hist_view_u128(m@), c) == merged_count(
            s.take(0),
            c,
        ) by {
            lemma_hist_count_zero(hist_view_u128(m@), c);
        }
    }
    while i < entries.len()
        invariant
            i <= s.len(),
            s == entries@,
            wf_analyses(s),
            hist_wf(hist_view_u128(m@)),
            hist_keys(hist_view_u128(m@)) == first_seen(all_keys(s.take(i as int))),
            forall|c: char|
                #[trigger] hist_count(hist_view_u128(m@), c) == merged_count(s.take(i as int), c),
        decreases s.len() - i,
    {
        let ghost pre = s.take(i as int);
        let ghost post = s.take(i as int + 1);
        proof {
            assert(wf_analyses(pre)) by {
                assert(forall|a: int| 0 <= a < pre.len() ==> pre[a] == s[a]);
            }
            assert forall|c: char| 0 <= #[trigger] hist_count(hist_view_u128(m@), c) by {
                lemma_merged_count_bound(pre, c);
            }
            assert forall|c: char| #[trigger] hist_count(hist_view_u128(m@), c) + (
            usize::MAX as int) <= u128::MAX as int by {
                lemma_merged_count_bound(pre, c);
                assert(pre.len() * (usize::MAX as int) + (usize::MAX as int) <= u128::MAX as int)
                    by (nonlinear_arith)
                    requires
                        0 <= pre.len() <= usize::MAX,
                ;
            }
            assert(hist_wf(s[i as int].stats.char_frequencies@));
        }
        let ghost mv0 = hist_view_u128(m@);
        merge_one(&mut m, &entries[i].stats.char_frequencies);
        proof {
            let h = s[i as int].stats.char_frequencies@;
            assert(post.drop_last() =~= pre);
            assert(post.last() == s[i as int]);
            assert(all_keys(post) == all_keys(pre) + hist_keys(h));
            assert forall|c: char| #[trigger] merged_count(post, c) == merged_count(pre, c)
                + hist_count(h, c) by {
            }
            lemma_first_seen_absorb(all_keys(pre), hist_keys(h));
            assert(hist_keys(mv0) == first_seen(all_keys(pre)));
            assert(hist_keys(hist_view_u128(m@)) == first_seen(first_seen(all_keys(pre))
                + hist_keys(h)));
        }
        i += 1;
    }
    proof {
        assert(s.take(s.len() as int) =~= s);
        let v = hist_view_u128(m@);
        assert(v =~= merged_hist_of(s)) by {
            assert(hist_keys(v).len() == v.len());
            assert forall|t: int| 0 <= t < v.len() implies v[t] == merged_hist_of(s)[t] by {
                assert(v[t].0 == hist_keys(v)[t]);
                lemma_hist_count_at(v, t);
                assert(v[t].1 == hist_count(v, v[t].0));
            }
        }
    }
    m
}

/// Position `i` holds the greatest count and is the earliest such position:
/// the entry the ranking picks next. Ties are broken by first-seen order.
pub open spec fn is_first_max(v: Seq<(char, int)>, i: int) -> bool {
    &&& 0 <= i < v.len()
    &&& forall|j: int| 0 <= j < v.len() ==> (#[trigger] v[j]).1 <= v[i].1
    &&& forall|j: int| 0 <= j < i ==> (#[trigger] v[j]).1 < v[i].1
}

pub open spec fn first_max_index(v: Seq<(char, int)>) -> int {
    choose|i: int| is_first_max(v, i)
}

/// The table rearranged by descending count, equal counts kept in their
/// original order: repeated selection of the earliest maximum.
pub open spec fn ranked(v: Seq<(char, int)>) -> Seq<(char, int)>
    decreases v.len(),
{
    if v.len() == 0 {
        Seq::empty()
    } else {
        let i = first_max_index(v);
        if is_first_max(v, i) {
            seq![v[i]] + ranked(v.remove(i))
        } else {
            v
        }
    }
}

proof fn lemma_first_max_exists(v: Seq<(char, int)>)
    requires
        v.len() > 0,
    ensures
        is_first_max(v, first_max_index(v)),
    decreases v.len(),
{
    let w = v.drop_last();
    if v.len() == 1 {
        assert(is_first_max(v, 0));
    } else {
        lemma_first_max_exists(w);
        let iw = first_max_index(w);
        assert(forall|j: int| 0 <= j < w.len() ==> w[j] == v[j]);
        if v.last().1 > v[iw].1 {
            assert(is_first_max(v, v.len() - 1));
        } else {
            assert(is_first_max(v, iw)) by {
                assert(v[v.len() - 1].1 <= v[iw].1);
            }
        }
    }
    let i0 = choose|i: int| is_first_max(v, i);
    assert(is_first_max(v, i0));
}

proof fn lemma_first_max_unique(v: Seq<(char, int)>, i: int)
    requires
        is_first_max(v, i),
    ensures
        first_max_index(v) == i,
{
    lemma_first_max_exists(v);
    let j = first_max_index(v);
    if j < i {
        assert(v[j].1 < v[i].1);
        assert(v[i].1 <= v[j].1);
    } else if i < j {
        assert(v[i].1 < v[j].1);
        assert(v[j].1 <= v[i].1);
    }
}

/// The ranking is a reordering: same length, same entries, counts descending.
/// Which of two equally counted entries comes first is fixed by the
/// selection itself: always the one standing earlier.
pub proof fn lemma_ranked_is_ranking(v: Seq<(char, int)>)
    ensures
        ranked(v).len() == v.len(),
        ranked(v).to_multiset() == v.to_multiset(),
        forall|i: int, j: int|
            0 <= i < j < ranked(v).len() ==> (#[trigger] ranked(v)[i]).1 >= (
            #[trigger] ranked(v)[j]).1,
    decreases v.len(),
{
    broadcast use vstd::seq_lib::group_to_multiset_ensures;

    if v.len() == 0 {
        assert(ranked(v).to_multiset() =~= v.to_multiset());
    } else {
        lemma_first_max_exists(v);
        let i = first_max_index(v);
        let rest = v.remove(i);
        lemma_ranked_is_ranking(rest);
        let rr = ranked(rest);
        let full = seq![v[i]] + rr;
        assert(ranked(v) == full);
        // permutation: removing the selected entry from both sides matches
        assert(full.remove(0) =~= rr);
        assert(full[0] == v[i]);
        assert(full.to_multiset() =~= v.to_multiset()) by {
            assert(full.remove(0).to_multiset() == full.to_multiset().remove(v[i]));
            assert(rest.to_multiset() == v.to_multiset().remove(v[i]));
            assert(rr.to_multiset() == rest.to_multiset());
            assert(full.contains(v[i])) by {
                assert(full[0] == v[i]);
            }
            assert(v.contains(v[i]));
            assert(full.to_multiset().contains(v[i]));
            assert(v.to_multiset().contains(v[i]));
            broadcast use vstd::multiset::group_multiset_axioms;

            assert forall|e: (char, int)| full.to_multiset().count(e) == v.to_multiset().count(
                e,
            ) by {
                assert(full.to_multiset().remove(v[i]).count(e) == v.to_multiset().remove(
                    v[i],
                ).count(e));
            }
        }
        // every entry of the tail is an entry of `rest`, so none outranks v[i]
        assert forall|j: int| 0 <= j < rr.len() implies rr[j].1 <= v[i].1 by {
            assert(rr.contains(rr[j]));
            assert(rr.to_multiset().count(rr[j]) > 0);
            assert(rest.contains(rr[j]));
            let t = choose|t: int| 0 <= t < rest.len() && rest[t] == rr[j];
            if t < i {
                assert(v[t] == rest[t]);
            } else {
                assert(v[t + 1] == rest[t]);
            }
        }
        assert forall|a: int, b: int|
            0 <= a < b < full.len() implies (#[trigger] full[a]).1 >= (#[trigger] full[b]).1 by {
            if a == 0 {
                assert(full[b] == rr[b - 1]);
            } else {
                assert(full[a] == rr[a - 1] && full[b] == rr[b - 1]);
            }
        }
    }
}

/// The unique position of an entry in a table with unique keys.
pub open spec fn idx_of(v: Seq<(char, int)>, e: (char, int)) -> int {
    choose|t: int| 0 <= t < v.len() && v[t] == e
}

proof fn lemma_idx_of_at(v: Seq<(char, int)>, t: int)
    requires
        hist_wf(v),
        0 <= t < v.len(),
    ensures
        idx_of(v, v[t]) == t,
{
    assert(exists|s: int| 0 <= s < v.len() && v[s] == v[t]) by {
        assert(0 <= t < v.len() && v[t] == v[t]);
    }
    let s = idx_of(v, v[t]);
    assert(0 <= s < v.len() && v[s] == v[t]);
    if s != t {
        assert(v[s].0 == v[t].0);
        assert(false);
    }
}

proof fn lemma_wf_remove(v: Seq<(char, int)>, m: int)
    requires
        hist_wf(v),
        0 <= m < v.len(),
    ensures
        hist_wf(v.remove(m)),
{
    let r = v.remove(m);
    assert forall|i: int, j: int| 0 <= i < j < r.len() implies (#[trigger] r[i]).0 != (
    #[trigger] r[j]).0 by {
        let vi: int = if i < m {
            i
        } else {
            i + 1
        };
        let vj: int = if j < m {
            j
        } else {
            j + 1
        };
        assert(r[i] == v[vi] && r[j] == v[vj]);
    }
}

/// Ties keep their original order: of two equally counted entries of a
/// unique-keyed table, the ranking lists the one standing earlier first, so
/// equally frequent characters come out in first-seen order.
pub proof fn lemma_ranked_stable(v: Seq<(char, int)>)
    requires
        hist_wf(v),
    ensures
        forall|i: int, j: int|
            #![trigger ranked(v)[i], ranked(v)[j]]
            0 <= i < j < ranked(v).len() && ranked(v)[i].1 == ranked(v)[j].1 ==> idx_of(
                v,
                ranked(v)[i],
            ) < idx_of(v, ranked(v)[j]),
    decreases v.len(),
{
    broadcast use vstd::seq_lib::group_to_multiset_ensures;

    if v.len() > 0 {
        lemma_first_max_exists(v);
        let m = first_max_index(v);
        let rest = v.remove(m);
        lemma_wf_remove(v, m);
        lemma_ranked_stable(rest);
        lemma_ranked_is_ranking(rest);
        let rr = ranked(rest);
        assert(ranked(v) == seq![v[m]] + rr);
        lemma_idx_of_at(v, m);
        // each tail entry sits in the rest, and its position in the whole
        // table follows its position there
        assert forall|k: int| 0 <= k < rr.len() implies {
            let t = idx_of(rest, #[trigger] rr[k]);
            &&& 0 <= t < rest.len()
            &&& rest[t] == rr[k]
            &&& idx_of(v, rr[k]) == (if t < m {
                t
            } else {
                t + 1
            })
        } by {
            assert(rr.contains(rr[k]));
            assert(rest.to_multiset().count(rr[k]) > 0);
            assert(rest.contains(rr[k]));
            assert(exists|s: int| 0 <= s < rest.len() && rest[s] == rr[k]);
            let t = idx_of(rest, rr[k]);
            assert(0 <= t < rest.len() && rest[t] == rr[k]);
            let vt: int = if t < m {
                t
            } else {
                t + 1
            };
            assert(v[vt] == rest[t]);
            lemma_idx_of_at(v, vt);
        }
        assert forall|i: int, j: int|
            0 <= i < j < ranked(v).len() && (#[trigger] ranked(v)[i]).1 == (
            #[trigger] ranked(v)[j]).1 implies idx_of(v, ranked(v)[i]) < idx_of(
            v,
            ranked(v)[j],
        ) by {
            let b = rr[j - 1];
            assert(ranked(v)[j] == b);
            let tb = idx_of(rest, b);
            if i == 0 {
                assert(ranked(v)[0] == v[m]);
                assert(b.1 == v[m].1);
                if tb < m {
                    assert(rest[tb] == v[tb]);
                    assert(v[tb].1 < v[m].1);
                    assert(false);
                }
                assert(idx_of(v, b) == tb + 1);
            } else {
                let a = rr[i - 1];
                assert(ranked(v)[i] == a);
                let ta = idx_of(rest, a);
                assert(ta < tb);
            }
        }
    }
}

/// The first `k` entries of the ranking of the merged table, or the whole
/// ranking when fewer exist.
pub open spec fn top_k_of(s: Seq<FileAnalysis>, k: int) -> Seq<(char, int)> {
    if k <= merged_hist_of(s).len() {
        ranked(merged_hist_of(s)).take(k)
    } else {
        ranked(merged_hist_of(s))
    }
}

/// The position of the earliest entry with the greatest count.
fn select_first_max(work: &Vec<(char, u128)>) -> (sel: usize)
    requires
        work@.len() > 0,
    ensures
        sel < work@.len(),
        is_first_max(hist_view_u128(work@), sel as int),
{
    let ghost v = hist_view_u128(work@);
    let mut best: usize = 0;
    let mut j: usize = 1;
    while j < work.len()
        invariant
            v == hist_view_u128(work@),
            best < j <= v.len(),
            forall|t: int| 0 <= t < j ==> (#[trigger] v[t]).1 <= v[best as int].1,
            forall|t: int| 0 <= t < best ==> (#[trigger] v[t]).1 < v[best as int].1,
        decreases v.len() - j,
    {
        if work[j].1 > work[best].1 {
            best = j;
        }
        j += 1;
    }
    best
}

/// Takes the `k` highest-counted entries of the merged table, highest first,
/// equal counts in first-seen order.
pub fn top_chars(merged: Vec<(char, u128)>, k: usize) -> (r: Vec<(char, u128)>)
    ensures
        hist_view_u128(r@) == if k as int <= merged@.len() {
            ranked(hist_view_u128(merged@)).take(k as int)
        } else {
            ranked(hist_view_u128(merged@))
        },
{
    let ghost v0 = hist_view_u128(merged@);
    proof {
        lemma_ranked_is_ranking(v0);
    }
    let mut work = merged;
    let mut r: Vec<(char, u128)> = Vec::new();
    proof {
        assert(hist_view_u128(r@) =~= Seq::<(char, int)>::empty());
        assert(ranked(v0) =~= hist_view_u128(r@) + ranked(hist_view_u128(work@)));
    }
    while r.len() < k && work.len() > 0
        invariant
            r@.len() <= k,
            r@.len() + work@.len() == v0.len(),
            ranked(v0) == hist_view_u128(r@) + ranked(hist_view_u128(work@)),
        decreases work@.len(),
    {
        let sel = select_first_max(&work);
        let ghost wv = hist_view_u128(work@);
        let ghost rv = hist_view_u128(r@);
        proof {
            lemma_first_max_unique(wv, sel as int);
            assert(ranked(wv) == seq![wv[sel as int]] + ranked(wv.remove(sel as int)));
            lemma_ranked_is_ranking(wv);
            lemma_ranked_is_ranking(wv.remove(sel as int));
        }
        let e = work.remove(sel);
        r.push(e);
        proof {
            assert(hist_view_u128(work@) =~= wv.remove(sel as int));
            assert(hist_view_u128(r@) =~= rv.push(wv[sel as int]));
            assert(rv + (seq![wv[sel as int]] + ranked(wv.remove(sel as int))) =~= rv.push(
                wv[sel as int],
            ) + ranked(wv.remove(sel as int)));
        }
    }
    proof {
        let rv = hist_view_u128(r@);
        let restv = hist_view_u128(work@);
        lemma_ranked_is_ranking(restv);
        assert(rv.len() == r@.len());
        if r@.len() == k {
            assert(rv =~= ranked(v0).take(k as int));
            if k as int > v0.len() {
                assert(work@.len() == 0);
                assert(ranked(restv) =~= Seq::<(char, int)>::empty());
                assert(rv =~= ranked(v0));
            }
        } else {
            assert(work@.len() == 0);
            assert(ranked(restv) =~= Seq::<(char, int)>::empty());
            assert(rv =~= ranked(v0));
            assert(v0.len() < k as int);
        }
    }
    r
}

/// The totals, timing and top characters shown after a run completes.
pub struct ReportSummary {
    pub files_processed: usize,
    pub totals: Totals,
    pub average_nanos: Option<u128>,
    pub top_characters: Vec<(char, u128)>,
}

/// Builds the whole post-completion summary: the number of records, the
/// summed word, line and byte counts, the mean per-file processing time, and
/// the `k` most frequent characters over the merged histograms.
pub fn build_report(entries: &Vec<FileAnalysis>, k: usize) -> (r: ReportSummary)
    requires
        wf_analyses(entries@),
    ensures
        r.files_processed == entries@.len(),
        r.totals.words as int == total_words_of(entries@),
        r.totals.lines as int == total_lines_of(entries@),
        r.totals.bytes as int == total_bytes_of(entries@),
        match r.average_nanos {
            Some(a) => entries@.len() > 0 && a as int == total_nanos_of(entries@)
                / entries@.len() as int,
            None => entries@.len() == 0,
        },
        hist_view_u128(r.top_characters@) == top_k_of(entries@, k as int),
{
    let totals = compute_totals(entries);
    let average_nanos = if entries.len() > 0 {
        Some(average_nanos(entries))
    } else {
        None
    };
    let merged = merge_frequencies(entries);
    proof {
        assert(hist_view_u128(merged@).len() == merged@.len());
    }
    let top_characters = top_chars(merged, k);
    ReportSummary { files_processed: entries.len(), totals, average_nanos, top_characters }
}

/// Runs the whole sequential pipeline and reports on it: analyzes every
/// unit of work in order, then totals and ranks the records.
pub fn analyze_and_report(inputs: &Vec<FileInput>, k: usize) -> (out: (
    crate::aggregate::Aggregate,
    ReportSummary,
))
    ensures
        out.0.wf(),
        out.0.entries@.len() == inputs@.len(),
        forall|i: int|
            0 <= i < inputs@.len() ==> analysis_matches_input(
                #[trigger] out.0.entries@[i],
                inputs@[i],
            ),
        out.1.files_processed == inputs@.len(),
        out.1.totals.words as int == total_words_of(out.0.entries@),
        out.1.totals.lines as int == total_lines_of(out.0.entries@),
        out.1.totals.bytes as int == total_bytes_of(out.0.entries@),
        match out.1.average_nanos {
            Some(a) => inputs@.len() > 0 && a as int == total_nanos_of(out.0.entries@)
                / inputs@.len() as int,
            None => inputs@.len() == 0,
        },
        hist_view_u128(out.1.top_characters@) == top_k_of(out.0.entries@, k as int),
{
    let agg = crate::aggregate::run_pipeline(inputs);
    let report = build_report(&agg.entries, k);
    (agg, report)
}

/// The reporter's human-readable name for a character: "space", "newline",
/// "tab", or the character between single quotes.
pub fn char_display_name(c: char) -> (r: String)
    ensures
        c == ' ' ==> r@ == "space"@,
        c == '\n' ==> r@ == "newline"@,
        c == '\t' ==> r@ == "tab"@,
        c != ' ' && c != '\n' && c != '\t' ==> r@ == seq!['\'', c, '\''],
{
    if c == ' ' {
        String::from_str("space")
    } else if c == '\n' {
        String::from_str("newline")
    } else if c == '\t' {
        String::from_str("tab")
    } else {
        let mut s = String::new();
        push_char(&mut s, '\'');
        push_char(&mut s, c);
        push_char(&mut s, '\'');
        proof {
            assert(s@ =~= seq!['\'', c, '\'']);
        }
        s
    }
}

} // verus!
