//! Character-level text measures: white space, word and line counts, and
//! per-character frequency histograms.
use vstd::prelude::*;

verus! {

/// The Unicode white-space code points, the set that separates words.
pub open spec fn is_space_char(c: char) -> bool {
    let u = c as u32;
    u == 0x09 || u == 0x0A || u == 0x0B || u == 0x0C || u == 0x0D || u == 0x20 || u == 0x85
        || u == 0xA0 || u == 0x1680 || (0x2000 <= u && u <= 0x200A) || u == 0x2028 || u == 0x2029
        || u == 0x202F || u == 0x205F || u == 0x3000
}

/// Decides whether a character is white space.
pub fn is_space(c: char) -> (r: bool)
    ensures
        r == is_space_char(c),
{
    let u: u32 = c as u32;
    u == 0x09 || u == 0x0A || u == 0x0B || u == 0x0C || u == 0x0D || u == 0x20 || u == 0x85
        || u == 0xA0 || u == 0x1680 || (0x2000 <= u && u <= 0x200A) || u == 0x2028 || u == 0x2029
        || u == 0x202F || u == 0x205F || u == 0x3000
}

/// Position `i` starts a white-space-delimited word: it holds a non-space
/// character and is either the first position or preceded by a space.
pub open spec fn is_word_start(s: Seq<char>, i: int) -> bool {
    0 <= i < s.len() && !is_space_char(s[i]) && (i == 0 || is_space_char(s[i - 1]))
}

/// How many word starts lie before position `n`.
pub open spec fn word_count_upto(s: Seq<char>, n: int) -> int
    decreases n,
{
    if n <= 0 {
        0
    } else {
        word_count_upto(s, n - 1) + if is_word_start(s, n - 1) {
            1int
        } else {
            0int
        }
    }
}

/// The number of white-space-delimited words of a text.
pub open spec fn word_count_of(s: Seq<char>) -> int {
    word_count_upto(s, s.len() as int)
}

/// How many times character `c` occurs in `s`.
pub open spec fn char_count(s: Seq<char>, c: char) -> int
    decreases s.len(),
{
    if s.len() == 0 {
        0
    } else {
        char_count(s.drop_last(), c) + if s.last() == c {
            1int
        } else {
            0int
        }
    }
}

pub proof fn lemma_char_count_push(t: Seq<char>, x: char, c: char)
    ensures
        char_count(t.push(x), c) == char_count(t, c) + if x == c {
            1int
        } else {
            0int
        },
{
    assert(t.push(x).drop_last() =~= t);
    assert(t.push(x).last() == x);
}

pub proof fn lemma_char_count_bound(s: Seq<char>, c: char)
    ensures
        0 <= char_count(s, c) <= s.len(),
    decreases s.len(),
{
    if s.len() > 0 {
        lemma_char_count_bound(s.drop_last(), c);
    }
}

pub proof fn lemma_char_count_zero(s: Seq<char>, c: char)
    requires
        !s.contains(c),
    ensures
        char_count(s, c) == 0,
    decreases s.len(),
{
    if s.len() > 0 {
        assert(forall|i: int| 0 <= i < s.drop_last().len() ==> s.drop_last()[i] == s[i]);
        lemma_char_count_zero(s.drop_last(), c);
        assert(s[s.len() - 1] != c);
    }
}

/// The number of lines of a text, as line-oriented reading sees it: one line
/// per newline character, plus a final unterminated line if the text does not
/// end with a newline. An empty text has no lines.
pub open spec fn line_count_of(s: Seq<char>) -> int {
    if s.len() == 0 {
        0
    } else if s[s.len() - 1] == '\n' {
        char_count(s, '\n')
    } else {
        char_count(s, '\n') + 1
    }
}

/// The distinct characters of `s`, each at the position of its first
/// occurrence.
pub open spec fn first_seen(s: Seq<char>) -> Seq<char>
    decreases s.len(),
{
    if s.len() == 0 {
        Seq::empty()
    } else {
        let prev = first_seen(s.drop_last());
        if prev.contains(s.last()) {
            prev
        } else {
            prev.push(s.last())
        }
    }
}

pub proof fn lemma_first_seen_contains(s: Seq<char>, c: char)
    ensures
        first_seen(s).contains(c) <==> s.contains(c),
    decreases s.len(),
{
    if s.len() > 0 {
        lemma_first_seen_contains(s.drop_last(), c);
        assert(s.contains(c) <==> (s.drop_last().contains(c) || s.last() == c)) by {
            if s.contains(c) {
                let i = choose|i: int| 0 <= i < s.len() && s[i] == c;
                if i < s.len() - 1 {
                    assert(s.drop_last()[i] == c);
                }
            }
            if s.drop_last().contains(c) {
                let i = choose|i: int| 0 <= i < s.drop_last().len() && s.drop_last()[i] == c;
                assert(s[i] == c);
            }
            if s.last() == c {
                assert(s[s.len() - 1] == c);
            }
        }
        let prev = first_seen(s.drop_last());
        if !prev.contains(s.last()) {
            assert(prev.push(s.last()).contains(c) <==> (prev.contains(c) || s.last() == c)) by {
                if prev.contains(c) {
                    let i = choose|i: int| 0 <= i < prev.len() && prev[i] == c;
                    assert(prev.push(s.last())[i] == c);
                }
                assert(prev.push(s.last())[prev.len() as int] == s.last());
            }
        }
    }
}

pub proof fn lemma_first_seen_no_dup(s: Seq<char>)
    ensures
        forall|i: int, j: int|
            0 <= i < j < first_seen(s).len() ==> first_seen(s)[i] != first_seen(s)[j],
    decreases s.len(),
{
    if s.len() > 0 {
        lemma_first_seen_no_dup(s.drop_last());
        let prev = first_seen(s.drop_last());
        if !prev.contains(s.last()) {
            assert forall|i: int, j: int|
                0 <= i < j < prev.push(s.last()).len() implies prev.push(s.last())[i] != prev.push(
                s.last(),
            )[j] by {
                if j < prev.len() {
                } else {
                    assert(prev.push(s.last())[j] == s.last());
                    assert(prev.push(s.last())[i] == prev[i]);
                    assert(prev.contains(prev[i]));
                }
            }
        }
    }
}

pub proof fn lemma_first_seen_of_nodup(a: Seq<char>)
    requires
        forall|i: int, j: int| 0 <= i < j < a.len() ==> a[i] != a[j],
    ensures
        first_seen(a) == a,
    decreases a.len(),
{
    if a.len() > 0 {
        assert(forall|i: int| 0 <= i < a.drop_last().len() ==> a.drop_last()[i] == a[i]);
        lemma_first_seen_of_nodup(a.drop_last());
        assert(!a.drop_last().contains(a.last())) by {
            if a.drop_last().contains(a.last()) {
                let i = choose|i: int|
                    0 <= i < a.drop_last().len() && a.drop_last()[i] == a.last();
                assert(a[i] == a[a.len() - 1]);
            }
        }
        assert(a.drop_last().push(a.last()) =~= a);
    }
}

/// Merging more characters into an already deduplicated prefix deduplicates
/// the same way as one pass over the whole.
pub proof fn lemma_first_seen_absorb(a: Seq<char>, b: Seq<char>)
    ensures
        first_seen(first_seen(a) + b) == first_seen(a + b),
    decreases b.len(),
{
    if b.len() == 0 {
        assert(first_seen(a) + b =~= first_seen(a));
        assert(a + b =~= a);
        lemma_first_seen_no_dup(a);
        lemma_first_seen_of_nodup(first_seen(a));
    } else {
        assert((first_seen(a) + b).drop_last() =~= first_seen(a) + b.drop_last());
        assert((a + b).drop_last() =~= a + b.drop_last());
        lemma_first_seen_absorb(a, b.drop_last());
        assert((first_seen(a) + b).last() == b.last());
        assert((a + b).last() == b.last());
    }
}

/// A frequency table seen abstractly: key and count per entry, in order.
pub open spec fn hist_view_usize(es: Seq<(char, usize)>) -> Seq<(char, int)> {
    es.map_values(|e: (char, usize)| (e.0, e.1 as int))
}

pub open spec fn hist_view_u128(es: Seq<(char, u128)>) -> Seq<(char, int)> {
    es.map_values(|e: (char, u128)| (e.0, e.1 as int))
}

/// The keys of a frequency table, in entry order.
pub open spec fn hist_keys(es: Seq<(char, int)>) -> Seq<char> {
    es.map_values(|e: (char, int)| e.0)
}

/// No key occurs twice.
pub open spec fn hist_wf(es: Seq<(char, int)>) -> bool {
    forall|i: int, j: int| 0 <= i < j < es.len() ==> (#[trigger] es[i]).0 != (#[trigger] es[j]).0
}

/// The count a frequency table gives to `c`: the sum of the counts of the
/// entries keyed by `c`, hence the entry's count when keys are unique and
/// zero when `c` is absent.
pub open spec fn hist_count(es: Seq<(char, int)>, c: char) -> int
    decreases es.len(),
{
    if es.len() == 0 {
        0
    } else {
        hist_count(es.drop_last(), c) + if es.last().0 == c {
            es.last().1
        } else {
            0int
        }
    }
}

pub proof fn lemma_hist_count_push(es: Seq<(char, int)>, e: (char, int), c: char)
    ensures
        hist_count(es.push(e), c) == hist_count(es, c) + if e.0 == c {
            e.1
        } else {
            0int
        },
{
    assert(es.push(e).drop_last() =~= es);
    assert(es.push(e).last() == e);
}

pub proof fn lemma_hist_count_zero(es: Seq<(char, int)>, c: char)
    requires
        forall|j: int| 0 <= j < es.len() ==> (#[trigger] es[j]).0 != c,
    ensures
        hist_count(es, c) == 0,
    decreases es.len(),
{
    if es.len() > 0 {
        assert(forall|j: int| 0 <= j < es.drop_last().len() ==> es.drop_last()[j] == es[j]);
        lemma_hist_count_zero(es.drop_last(), c);
    }
}

pub proof fn lemma_hist_count_at(es: Seq<(char, int)>, k: int)
    requires
        hist_wf(es),
        0 <= k < es.len(),
    ensures
        hist_count(es, es[k].0) == es[k].1,
    decreases es.len(),
{
    assert(forall|j: int| 0 <= j < es.drop_last().len() ==> es.drop_last()[j] == es[j]);
    if k == es.len() - 1 {
        lemma_hist_count_zero(es.drop_last(), es[k].0);
    } else {
        lemma_hist_count_at(es.drop_last(), k);
        assert(es.last().0 != es[k].0);
    }
}

pub proof fn lemma_hist_count_update(es: Seq<(char, int)>, k: int, v: int, c: char)
    requires
        0 <= k < es.len(),
    ensures
        hist_count(es.update(k, (es[k].0, v)), c) == hist_count(es, c) + if es[k].0 == c {
            v - es[k].1
        } else {
            0int
        },
    decreases es.len(),
{
    let es2 = es.update(k, (es[k].0, v));
    if k == es.len() - 1 {
        assert(es2.drop_last() =~= es.drop_last());
        assert(es2.last() == (es[k].0, v));
    } else {
        assert(es2.drop_last() =~= es.drop_last().update(k, (es[k].0, v)));
        assert(es.drop_last()[k] == es[k]);
        lemma_hist_count_update(es.drop_last(), k, v, c);
        assert(es2.last() == es.last());
    }
}

/// A per-character frequency table with unique keys in first-seen order.
#[derive(Clone, Debug)]
pub struct CharHistogram {
    pub entries: Vec<(char, usize)>,
}

impl View for CharHistogram {
    type V = Seq<(char, int)>;

    open spec fn view(&self) -> Seq<(char, int)> {
        hist_view_usize(self.entries@)
    }
}

impl CharHistogram {
    /// The count recorded for `c`, zero when `c` is absent.
    pub open spec fn count_of(self, c: char) -> int {
        hist_count(self@, c)
    }

    /// `self` is exactly the character-frequency histogram of the text `s`:
    /// unique keys, one per distinct character of `s` in first-seen order,
    /// each carrying that character's number of occurrences.
    pub open spec fn is_histogram_of(self, s: Seq<char>) -> bool {
        &&& hist_wf(self@)
        &&& hist_keys(self@) == first_seen(s)
        &&& forall|c: char| #[trigger] hist_count(self@, c) == char_count(s, c)
    }

    /// Makes an empty histogram.
    pub fn new() -> (h: CharHistogram)
        ensures
            h@ =~= Seq::<(char, int)>::empty(),
            h.is_histogram_of(Seq::<char>::empty()),
    {
        let h = CharHistogram { entries: Vec::new() };
        proof {
            assert(h@ =~= Seq::<(char, int)>::empty());
            assert(hist_keys(h@) =~= first_seen(Seq::<char>::empty()));
        }
        h
    }

    /// Hands out the table as plain pairs, in first-seen order.
    pub fn entry_at(&self, i: usize) -> (e: (char, usize))
        requires
            i < self.entries@.len(),
        ensures
            e.0 == self@[i as int].0,
            e.1 as int == self@[i as int].1,
    {
        let e = self.entries[i];
        e
    }

    /// The number of distinct characters recorded.
    pub fn len(&self) -> (n: usize)
        ensures
            n == self@.len(),
    {
        self.entries.len()
    }
}

/// The index of the entry keyed by `c`, if one exists.
fn find_key(entries: &Vec<(char, usize)>, c: char) -> (r: Option<usize>)
    ensures
        match r {
            Some(k) => k < entries@.len() && entries@[k as int].0 == c,
            None => forall|j: int| 0 <= j < entries@.len() ==> (#[trigger] entries@[j]).0 != c,
        },
{
    let mut k: usize = 0;
    while k < entries.len()
        invariant
            k <= entries@.len(),
            forall|j: int| 0 <= j < k ==> (#[trigger] entries@[j]).0 != c,
        decreases entries@.len() - k,
    {
        if entries[k].0 == c {
            return Some(k);
        }
        k += 1;
    }
    None
}

/// Tallies every character of `s` into a fresh histogram.
pub fn histogram_of(s: &str) -> (h: CharHistogram)
    ensures
        h.is_histogram_of(s@),
{
    let n: usize = s.unicode_len();
    let mut entries: Vec<(char, usize)> = Vec::new();
    let mut i: usize = 0;
    proof {
        assert(hist_view_usize(entries@) =~= Seq::<(char, int)>::empty());
        assert(hist_keys(hist_view_usize(entries@)) =~= first_seen(s@.take(0)));
        assert(s@.take(0) =~= Seq::<char>::empty());
        assert forall|c: char| #[trigger] hist_count(hist_view_usize(entries@), c) == char_count(
            s@.take(0),
            c,
        ) by {
            lemma_char_count_zero(s@.take(0), c);
        }
    }
    while i < n
        invariant
            i <= n,
            n == s@.len(),
            hist_wf(hist_view_usize(entries@)),
            hist_keys(hist_view_usize(entries@)) == first_seen(s@.take(i as int)),
            forall|c: char| #[trigger] hist_count(hist_view_usize(entries@), c) == char_count(
                s@.take(i as int),
                c,
            ),
        decreases n - i,
    {
        let c = s.get_char(i);
        let ghost pre = s@.take(i as int);
        let ghost post = s@.take(i as int + 1);
        proof {
            assert(post.drop_last() =~= pre);
            assert(post.last() == c);
            assert(post =~= pre.push(c));
            assert forall|c2: char| #[trigger] char_count(post, c2) == char_count(pre, c2) + (if c2
                == c {
                1int
            } else {
                0int
            }) by {
                lemma_char_count_push(pre, c, c2);
            }
        }
        match find_key(&entries, c) {
            Some(k) => {
                let cnt = entries[k].1;
                let ghost v = hist_view_usize(entries@);
                proof {
                    assert(v[k as int].0 == c && v[k as int].1 == cnt as int);
                    lemma_hist_count_at(v, k as int);
                    assert(hist_count(v, c) == cnt as int);
                    lemma_char_count_bound(pre, c);
                    assert(cnt < n);
                    // the key is already present, so first_seen does not grow
                    assert(hist_keys(v).contains(c)) by {
                        assert(hist_keys(v)[k as int] == c);
                    }
                    lemma_first_seen_contains(pre, c);
                    assert(first_seen(post) == first_seen(pre));
                }
                entries.set(k, (c, cnt + 1));
                proof {
                    let v2 = hist_view_usize(entries@);
                    assert(v2 =~= v.update(k as int, (c, cnt + 1 as int)));
                    assert forall|c2: char| #[trigger] hist_count(v2, c2) == char_count(post, c2)
                        by {
                        lemma_hist_count_update(v, k as int, cnt + 1 as int, c2);
                    }
                    assert(hist_keys(v2) =~= hist_keys(v));
                    assert(hist_wf(v2)) by {
                        assert(forall|j: int| 0 <= j < v2.len() ==> (#[trigger] v2[j]).0 == v[j].0);
                    }
                }
            },
            None => {
                let ghost v = hist_view_usize(entries@);
                proof {
                    assert(!hist_keys(v).contains(c)) by {
                        if hist_keys(v).contains(c) {
                            let j = choose|j: int|
                                0 <= j < hist_keys(v).len() && hist_keys(v)[j] == c;
                            assert(v[j].0 == c);
                        }
                    }
                    lemma_first_seen_contains(pre, c);
                    assert(!pre.contains(c));
                    lemma_char_count_zero(pre, c);
                    assert(first_seen(post) == first_seen(pre).push(c));
                }
                entries.push((c, 1));
                proof {
                    let v2 = hist_view_usize(entries@);
                    assert(v2 =~= v.push((c, 1int)));
                    assert forall|c2: char| #[trigger] hist_count(v2, c2) == char_count(post, c2)
                        by {
                        lemma_hist_count_push(v, (c, 1int), c2);
                    }
                    assert(hist_keys(v2) =~= hist_keys(v).push(c));
                    assert(hist_wf(v2)) by {
                        assert(forall|j: int| 0 <= j < v.len() ==> (#[trigger] v2[j]).0 == v[j].0);
                        assert(v2[v.len() as int].0 == c);
                        assert forall|j: int| 0 <= j < v.len() implies (#[trigger] v2[j]).0 != c
                            by {
                            assert(v[j].0 != c);
                        }
                    }
                }
            },
        }
        i += 1;
    }
    proof {
        assert(s@.take(n as int) =~= s@);
    }
    CharHistogram { entries }
}

/// Counts the white-space-delimited words of a text.
pub fn word_count(s: &str) -> (r: usize)
    ensures
        r == word_count_of(s@),
{
    let n: usize = s.unicode_len();
    let mut count: usize = 0;
    let mut prev_space: bool = true;
    let mut i: usize = 0;
    while i < n
        invariant
            i <= n,
            n == s@.len(),
            count == word_count_upto(s@, i as int),
            count <= i,
            prev_space == (i == 0 || is_space_char(s@[i as int - 1])),
        decreases n - i,
    {
        let c = s.get_char(i);
        if is_space(c) {
            prev_space = true;
        } else {
            if prev_space {
                count += 1;
            }
            prev_space = false;
        }
        i += 1;
    }
    count
}

/// Counts the lines of a text: one per newline character, plus a final
/// unterminated line.
pub fn line_count(s: &str) -> (r: usize)
    ensures
        r == line_count_of(s@),
{
    let n: usize = s.unicode_len();
    let mut newlines: usize = 0;
    let mut i: usize = 0;
    proof {
        assert(s@.take(0) =~= Seq::<char>::empty());
    }
    while i < n
        invariant
            i <= n,
            n == s@.len(),
            newlines == char_count(s@.take(i as int), '\n'),
            newlines <= i,
        decreases n - i,
    {
        let c = s.get_char(i);
        proof {
            assert(s@.take(i as int + 1) =~= s@.take(i as int).push(s@[i as int]));
            lemma_char_count_push(s@.take(i as int), s@[i as int], '\n');
        }
        if c == '\n' {
            newlines += 1;
        }
        i += 1;
    }
    proof {
        assert(s@.take(n as int) =~= s@);
    }
    if n == 0 {
        0
    } else {
        let last = s.get_char(n - 1);
        if last == '\n' {
            newlines
        } else {
            proof {
                lemma_char_count_bound(s@, '\n');
                assert(char_count(s@, '\n') < n) by {
                    lemma_char_count_drop_last_bound(s@);
                }
            }
            newlines + 1
        }
    }
}

proof fn lemma_char_count_drop_last_bound(s: Seq<char>)
    requires
        s.len() > 0,
        s[s.len() - 1] != '\n',
    ensures
        char_count(s, '\n') <= s.len() - 1,
{
    lemma_char_count_bound(s.drop_last(), '\n');
}

} // verus!
