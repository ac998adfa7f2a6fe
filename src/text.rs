use vstd::prelude::*;

verus! {

/// The characters that separate words of a definition.
pub open spec fn is_space(c: char) -> bool {
    c == ' ' || c == '\t' || c == '\n' || c == '\r'
}

/// The character sequences held by a sequence of vectors.
pub open spec fn views(v: Seq<Vec<char>>) -> Seq<Seq<char>> {
    v.map_values(|x: Vec<char>| x@)
}

/// Splits `s` at every `'|'`, scanning from position `i` with the piece `cur`
/// under way and the finished pieces `acc`. Empty pieces are kept.
pub open spec fn segments_from(
    s: Seq<char>,
    i: int,
    cur: Seq<char>,
    acc: Seq<Seq<char>>,
) -> Seq<Seq<char>>
    decreases s.len() - i,
{
    if i >= s.len() {
        acc.push(cur)
    } else if s[i] == '|' {
        segments_from(s, i + 1, seq![], acc.push(cur))
    } else {
        segments_from(s, i + 1, cur.push(s[i]), acc)
    }
}

/// The pieces of `s` between step separators, in order. A `'|'` separates
/// steps wherever it stands, inside quotes too.
pub open spec fn segments(s: Seq<char>) -> Seq<Seq<char>> {
    segments_from(s, 0, seq![], seq![])
}

/// Splits `s` into words, scanning from `i` with the word `cur` under way,
/// the finished words `acc`, and `quoted` telling whether a `'"'` is open.
/// Whitespace outside quotes ends a word; the quote marks themselves are
/// dropped, so a quoted run with whitespace stays inside one word.
pub open spec fn words_from(
    s: Seq<char>,
    i: int,
    cur: Seq<char>,
    acc: Seq<Seq<char>>,
    quoted: bool,
) -> Seq<Seq<char>>
    decreases s.len() - i,
{
    if i >= s.len() {
        if cur.len() > 0 {
            acc.push(cur)
        } else {
            acc
        }
    } else if s[i] == '"' {
        words_from(s, i + 1, cur, acc, !quoted)
    } else if is_space(s[i]) && !quoted {
        words_from(s, i + 1, seq![], if cur.len() > 0 { acc.push(cur) } else { acc }, quoted)
    } else {
        words_from(s, i + 1, cur.push(s[i]), acc, quoted)
    }
}

/// The words of `s`, in order; none of them is empty.
pub open spec fn words(s: Seq<char>) -> Seq<Seq<char>> {
    words_from(s, 0, seq![], seq![], false)
}

/// Position of the first `'='` in `w` at or after `i`, or `w.len()` if none.
pub open spec fn find_eq(w: Seq<char>, i: int) -> int
    decreases w.len() - i,
{
    if i >= w.len() {
        w.len() as int
    } else if w[i] == '=' {
        i
    } else {
        find_eq(w, i + 1)
    }
}

/// Pieces joined back together with `'|'` between neighbours.
pub open spec fn join_bars(pieces: Seq<Seq<char>>) -> Seq<char>
    decreases pieces.len(),
{
    if pieces.len() == 0 {
        seq![]
    } else if pieces.len() == 1 {
        pieces[0]
    } else {
        join_bars(pieces.drop_last()) + seq!['|'] + pieces.last()
    }
}

/// The characters of `s` from `i` on that end up in words: all but the
/// quote marks and the whitespace outside quotes, in order.
pub open spec fn kept_from(s: Seq<char>, i: int, quoted: bool) -> Seq<char>
    decreases s.len() - i,
{
    if i >= s.len() {
        seq![]
    } else if s[i] == '"' {
        kept_from(s, i + 1, !quoted)
    } else if is_space(s[i]) && !quoted {
        kept_from(s, i + 1, quoted)
    } else {
        seq![s[i]] + kept_from(s, i + 1, quoted)
    }
}

/// Pieces laid end to end.
pub open spec fn concat_all(pieces: Seq<Seq<char>>) -> Seq<char>
    decreases pieces.len(),
{
    if pieces.len() == 0 {
        seq![]
    } else {
        concat_all(pieces.drop_last()) + pieces.last()
    }
}

proof fn lemma_join_push_char(acc: Seq<Seq<char>>, cur: Seq<char>, c: char)
    ensures
        join_bars(acc.push(cur.push(c))) == join_bars(acc.push(cur)) + seq![c],
{
    assert(acc.push(cur.push(c)).drop_last() =~= acc);
    assert(acc.push(cur).drop_last() =~= acc);
    if acc.len() == 0 {
        assert(cur.push(c) =~= cur + seq![c]);
    } else {
        assert(join_bars(acc) + seq!['|'] + cur.push(c) =~= join_bars(acc) + seq!['|'] + cur + seq![c]);
    }
}

proof fn lemma_segments_from(s: Seq<char>, i: int, cur: Seq<char>, acc: Seq<Seq<char>>)
    requires
        0 <= i <= s.len(),
        !cur.contains('|'),
        forall|k: int| 0 <= k < acc.len() ==> !(#[trigger] acc[k]).contains('|'),
    ensures
        join_bars(segments_from(s, i, cur, acc)) == join_bars(acc.push(cur)) + s.subrange(i, s.len() as int),
        forall|k: int|
            0 <= k < segments_from(s, i, cur, acc).len() ==> !(#[trigger] segments_from(s, i, cur, acc)[k]).contains('|'),
    decreases s.len() - i,
{
    if i >= s.len() {
        assert(join_bars(acc.push(cur)) + s.subrange(i, s.len() as int) =~= join_bars(acc.push(cur)));
    } else if s[i] == '|' {
        let acc2 = acc.push(cur);
        assert forall|k: int| 0 <= k < acc2.len() implies !(#[trigger] acc2[k]).contains('|') by {
            if k < acc.len() {
                assert(acc2[k] == acc[k]);
            }
        }
        let e: Seq<char> = seq![];
        assert(!e.contains('|'));
        lemma_segments_from(s, i + 1, e, acc2);
        assert(acc2.push(e).drop_last() =~= acc2);
        assert(join_bars(acc2.push(e)) =~= join_bars(acc2) + seq!['|']);
        assert(s.subrange(i, s.len() as int) =~= seq!['|'] + s.subrange(i + 1, s.len() as int));
        assert(join_bars(acc2) + seq!['|'] + s.subrange(i + 1, s.len() as int) =~= join_bars(acc2)
            + s.subrange(i, s.len() as int));
    } else {
        let cur2 = cur.push(s[i]);
        assert(!cur2.contains('|')) by {
            if cur2.contains('|') {
                let k = choose|k: int| 0 <= k < cur2.len() && cur2[k] == '|';
                if k < cur.len() {
                    assert(cur[k] == '|');
                }
            }
        }
        lemma_segments_from(s, i + 1, cur2, acc);
        lemma_join_push_char(acc, cur, s[i]);
        assert(s.subrange(i, s.len() as int) =~= seq![s[i]] + s.subrange(i + 1, s.len() as int));
        assert(join_bars(acc.push(cur)) + seq![s[i]] + s.subrange(i + 1, s.len() as int) =~= join_bars(
            acc.push(cur),
        ) + s.subrange(i, s.len() as int));
    }
}

/// The segments of `s` hold no `'|'`, and joined back with `'|'` they give
/// `s` again.
pub proof fn lemma_segments(s: Seq<char>)
    ensures
        join_bars(segments(s)) == s,
        forall|k: int| 0 <= k < segments(s).len() ==> !(#[trigger] segments(s)[k]).contains('|'),
{
    let e: Seq<char> = seq![];
    let none: Seq<Seq<char>> = seq![];
    lemma_segments_from(s, 0, e, none);
    assert(none.push(e).len() == 1);
    assert(join_bars(none.push(e)) == e);
    assert(e + s.subrange(0, s.len() as int) =~= s);
}

/// Whether no piece is empty.
pub open spec fn all_nonempty(pieces: Seq<Seq<char>>) -> bool {
    forall|k: int| 0 <= k < pieces.len() ==> (#[trigger] pieces[k]).len() > 0
}

proof fn lemma_words_from(s: Seq<char>, i: int, cur: Seq<char>, acc: Seq<Seq<char>>, quoted: bool)
    requires
        0 <= i <= s.len(),
        all_nonempty(acc),
    ensures
        all_nonempty(words_from(s, i, cur, acc, quoted)),
        concat_all(words_from(s, i, cur, acc, quoted)) == concat_all(acc) + cur + kept_from(s, i, quoted),
    decreases s.len() - i,
{
    if i >= s.len() {
        if cur.len() > 0 {
            assert(acc.push(cur).drop_last() =~= acc);
            assert forall|k: int| 0 <= k < acc.push(cur).len() implies (#[trigger] acc.push(cur)[k]).len() > 0 by {
                if k < acc.len() {
                    assert(acc.push(cur)[k] == acc[k]);
                }
            }
            assert(concat_all(acc) + cur + kept_from(s, i, quoted) =~= concat_all(acc) + cur);
        } else {
            assert(concat_all(acc) + cur + kept_from(s, i, quoted) =~= concat_all(acc));
        }
    } else if s[i] == '"' {
        lemma_words_from(s, i + 1, cur, acc, !quoted);
    } else if is_space(s[i]) && !quoted {
        let acc2 = if cur.len() > 0 { acc.push(cur) } else { acc };
        if cur.len() > 0 {
            assert(acc.push(cur).drop_last() =~= acc);
            assert forall|k: int| 0 <= k < acc2.len() implies (#[trigger] acc2[k]).len() > 0 by {
                if k < acc.len() {
                    assert(acc2[k] == acc[k]);
                }
            }
            assert(concat_all(acc2) == concat_all(acc) + cur);
        } else {
            assert(concat_all(acc) + cur =~= concat_all(acc));
        }
        let e: Seq<char> = seq![];
        lemma_words_from(s, i + 1, e, acc2, quoted);
        assert(concat_all(acc2) + e + kept_from(s, i + 1, quoted) =~= concat_all(acc) + cur + kept_from(s, i, quoted));
    } else {
        let cur2 = cur.push(s[i]);
        lemma_words_from(s, i + 1, cur2, acc, quoted);
        assert(concat_all(acc) + cur2 + kept_from(s, i + 1, quoted) =~= concat_all(acc) + cur + kept_from(s, i, quoted));
    }
}

/// No word of `s` is empty, and laid end to end the words give the
/// characters of `s` but the quote marks and the whitespace outside quotes,
/// in order.
pub proof fn lemma_words(s: Seq<char>)
    ensures
        all_nonempty(words(s)),
        concat_all(words(s)) == kept_from(s, 0, false),
{
    let e: Seq<char> = seq![];
    let none: Seq<Seq<char>> = seq![];
    lemma_words_from(s, 0, e, none, false);
    assert(concat_all(none) + e + kept_from(s, 0, false) =~= kept_from(s, 0, false));
}

/// The characters of a string slice.
pub fn chars_of(s: &str) -> (r: Vec<char>)
    ensures
        r@ == s@,
{
    let n = s.unicode_len();
    let mut r: Vec<char> = Vec::new();
    let mut i: usize = 0;
    while i < n
        invariant
            n == s@.len(),
            i <= n,
            r@ == s@.take(i as int),
        decreases n - i,
    {
        r.push(s.get_char(i));
        proof {
            assert(s@.take(i + 1) =~= s@.take(i as int).push(s@[i as int]));
        }
        i = i + 1;
    }
    proof {
        assert(s@.take(n as int) =~= s@);
    }
    r
}

/// Relies on `String::from_iter` over chars: the string holds exactly those
/// characters, in order.
#[verifier::external_body]
pub(crate) fn string_of(v: &Vec<char>) -> (r: String)
    ensures
        r@ == v@,
{
    String::from_iter(v.iter())
}

/// Whether two character sequences are equal.
pub fn same_chars(a: &Vec<char>, b: &Vec<char>) -> (r: bool)
    ensures
        r == (a@ == b@),
{
    if a.len() != b.len() {
        return false;
    }
    let mut i: usize = 0;
    while i < a.len()
        invariant
            a@.len() == b@.len(),
            i <= a@.len(),
            forall|j: int| 0 <= j < i ==> a@[j] == b@[j],
        decreases a.len() - i,
    {
        if a[i] != b[i] {
            return false;
        }
        i = i + 1;
    }
    proof {
        assert(a@ =~= b@);
    }
    true
}

/// Copies a character sequence.
pub fn copy_chars(a: &Vec<char>) -> (r: Vec<char>)
    ensures
        r@ == a@,
{
    let mut r: Vec<char> = Vec::new();
    let mut i: usize = 0;
    while i < a.len()
        invariant
            i <= a@.len(),
            r@ == a@.take(i as int),
        decreases a.len() - i,
    {
        r.push(a[i]);
        proof {
            assert(a@.take(i + 1) =~= a@.take(i as int).push(a@[i as int]));
        }
        i = i + 1;
    }
    proof {
        assert(a@.take(a@.len() as int) =~= a@);
    }
    r
}

/// The pieces of `s` between `'|'` separators, empty pieces included.
pub fn split_segments(s: &Vec<char>) -> (r: Vec<Vec<char>>)
    ensures
        views(r@) == segments(s@),
{
    let mut acc: Vec<Vec<char>> = Vec::new();
    let mut cur: Vec<char> = Vec::new();
    let mut i: usize = 0;
    proof {
        assert(views(acc@) =~= seq![]);
        assert(cur@ =~= seq![]);
    }
    while i < s.len()
        invariant
            i <= s@.len(),
            segments_from(s@, i as int, cur@, views(acc@)) == segments(s@),
        decreases s.len() - i,
    {
        let c = s[i];
        if c == '|' {
            let ghost old_acc = views(acc@);
            let done = cur;
            acc.push(done);
            cur = Vec::new();
            proof {
                assert(views(acc@) =~= old_acc.push(done@));
                assert(cur@ =~= seq![]);
            }
        } else {
            cur.push(c);
        }
        i = i + 1;
    }
    let ghost old_acc = views(acc@);
    let ghost last = cur@;
    acc.push(cur);
    proof {
        assert(views(acc@) =~= old_acc.push(last));
    }
    acc
}

/// The words of `s`, as `words` says: whitespace outside quotes separates them.
pub fn split_words(s: &Vec<char>) -> (r: Vec<Vec<char>>)
    ensures
        views(r@) == words(s@),
{
    let mut acc: Vec<Vec<char>> = Vec::new();
    let mut cur: Vec<char> = Vec::new();
    let mut quoted = false;
    let mut i: usize = 0;
    proof {
        assert(views(acc@) =~= seq![]);
        assert(cur@ =~= seq![]);
    }
    while i < s.len()
        invariant
            i <= s@.len(),
            words_from(s@, i as int, cur@, views(acc@), quoted) == words(s@),
        decreases s.len() - i,
    {
        let c = s[i];
        if c == '"' {
            quoted = !quoted;
        } else if (c == ' ' || c == '\t' || c == '\n' || c == '\r') && !quoted {
            if cur.len() > 0 {
                let ghost old_acc = views(acc@);
                let done = cur;
                acc.push(done);
                cur = Vec::new();
                proof {
                    assert(views(acc@) =~= old_acc.push(done@));
                }
            }
            proof {
                assert(cur@ =~= seq![]);
            }
        } else {
            cur.push(c);
        }
        i = i + 1;
    }
    if cur.len() > 0 {
        let ghost old_acc = views(acc@);
        let ghost last = cur@;
        acc.push(cur);
        proof {
            assert(views(acc@) =~= old_acc.push(last));
        }
    }
    acc
}

/// Position of the first `'='` in `w`, or its length if there is none.
pub fn first_eq(w: &Vec<char>) -> (r: usize)
    ensures
        r as int == find_eq(w@, 0),
{
    let mut i: usize = 0;
    while i < w.len()
        invariant
            i <= w@.len(),
            find_eq(w@, i as int) == find_eq(w@, 0),
        decreases w.len() - i,
    {
        if w[i] == '=' {
            return i;
        }
        i = i + 1;
    }
    i
}

/// The characters of `w` from `from` up to, not including, `to`.
pub fn slice_chars(w: &Vec<char>, from: usize, to: usize) -> (r: Vec<char>)
    requires
        from <= to <= w@.len(),
    ensures
        r@ == w@.subrange(from as int, to as int),
{
    let mut r: Vec<char> = Vec::new();
    let mut i: usize = from;
    while i < to
        invariant
            from <= i <= to <= w@.len(),
            r@ == w@.subrange(from as int, i as int),
        decreases to - i,
    {
        r.push(w[i]);
        proof {
            assert(w@.subrange(from as int, i + 1) =~= w@.subrange(from as int, i as int).push(
                w@[i as int],
            ));
        }
        i = i + 1;
    }
    r
}

} // verus!
