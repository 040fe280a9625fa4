//! Character-level text handling for the assembler: whitespace, trimming,
//! splitting, upper-casing, decimal numerals and building message strings.
use vstd::prelude::*;

verus! {

/// A character with the Unicode `White_Space` property (what `char::is_whitespace` tests).
pub open spec fn is_white_space(c: char) -> bool {
    ('\u{9}' <= c && c <= '\u{d}') || c == ' ' || c == '\u{85}' || c == '\u{a0}' || c
        == '\u{1680}' || ('\u{2000}' <= c && c <= '\u{200a}') || c == '\u{2028}' || c
        == '\u{2029}' || c == '\u{202f}' || c == '\u{205f}' || c == '\u{3000}'
}

/// Whether `c` is white space, as `char::is_whitespace` answers.
pub fn is_white_space_char(c: char) -> (b: bool)
    ensures
        b == is_white_space(c),
{
    ('\u{9}' <= c && c <= '\u{d}') || c == ' ' || c == '\u{85}' || c == '\u{a0}' || c
        == '\u{1680}' || ('\u{2000}' <= c && c <= '\u{200a}') || c == '\u{2028}' || c
        == '\u{2029}' || c == '\u{202f}' || c == '\u{205f}' || c == '\u{3000}'
}

/// The line separator.
pub open spec fn is_newline(c: char) -> bool {
    c == '\n'
}

/// `s` without its leading whitespace.
pub open spec fn trim_start(s: Seq<char>) -> Seq<char>
    decreases s.len(),
{
    if s.len() > 0 && is_white_space(s[0]) {
        trim_start(s.drop_first())
    } else {
        s
    }
}

/// `s` without its trailing whitespace.
pub open spec fn trim_end(s: Seq<char>) -> Seq<char>
    decreases s.len(),
{
    if s.len() > 0 && is_white_space(s.last()) {
        trim_end(s.drop_last())
    } else {
        s
    }
}

/// `s` without leading and trailing whitespace.
pub open spec fn trim(s: Seq<char>) -> Seq<char> {
    trim_end(trim_start(s))
}

/// The part of `s` before its first `;`.
pub open spec fn before_comment(s: Seq<char>) -> Seq<char>
    decreases s.len(),
{
    if s.len() == 0 {
        s
    } else if s[0] == ';' {
        Seq::empty()
    } else {
        seq![s[0]] + before_comment(s.drop_first())
    }
}

/// The pieces of `s` between separators, empty pieces included; there is one
/// piece more than there are separators.
pub open spec fn pieces(s: Seq<char>, sep: spec_fn(char) -> bool) -> Seq<Seq<char>>
    decreases s.len(),
{
    if s.len() == 0 {
        seq![Seq::empty()]
    } else {
        let p = pieces(s.drop_last(), sep);
        if sep(s.last()) {
            p.push(Seq::empty())
        } else {
            p.update(p.len() - 1, p.last().push(s.last()))
        }
    }
}

/// The non-empty sequences of `ps`, in order.
pub open spec fn nonempty(ps: Seq<Seq<char>>) -> Seq<Seq<char>>
    decreases ps.len(),
{
    if ps.len() == 0 {
        Seq::empty()
    } else if ps.last().len() > 0 {
        nonempty(ps.drop_last()).push(ps.last())
    } else {
        nonempty(ps.drop_last())
    }
}

/// The lines of `s`, separated by `\n`.
pub open spec fn lines(s: Seq<char>) -> Seq<Seq<char>> {
    pieces(s, |c: char| is_newline(c))
}

/// The whitespace-separated words of `s`.
pub open spec fn words(s: Seq<char>) -> Seq<Seq<char>> {
    nonempty(pieces(s, |c: char| is_white_space(c)))
}

/// The views of a sequence of character vectors.
pub open spec fn views(v: Seq<Vec<char>>) -> Seq<Seq<char>> {
    v.map_values(|x: Vec<char>| x@)
}

/// A text has at least one piece and at most one more than its length.
pub proof fn lemma_pieces_nonempty(s: Seq<char>, sep: spec_fn(char) -> bool)
    ensures
        pieces(s, sep).len() >= 1,
        pieces(s, sep).len() <= s.len() + 1,
    decreases s.len(),
{
    if s.len() > 0 {
        lemma_pieces_nonempty(s.drop_last(), sep);
    }
}

/// Joining two texts with a separator joins their pieces.
pub proof fn lemma_pieces_join(s1: Seq<char>, c: char, s2: Seq<char>, sep: spec_fn(char) -> bool)
    requires
        sep(c),
    ensures
        pieces(s1 + seq![c] + s2, sep) == pieces(s1, sep) + pieces(s2, sep),
    decreases s2.len(),
{
    let s = s1 + seq![c] + s2;
    if s2.len() == 0 {
        assert(s.drop_last() =~= s1);
        assert(pieces(s1, sep).push(Seq::empty()) =~= pieces(s1, sep) + seq![Seq::<char>::empty()]);
    } else {
        assert(s.drop_last() =~= s1 + seq![c] + s2.drop_last());
        lemma_pieces_join(s1, c, s2.drop_last(), sep);
        lemma_pieces_nonempty(s2.drop_last(), sep);
        let p1 = pieces(s1, sep);
        let q = pieces(s2.drop_last(), sep);
        let x = s2.last();
        assert(s.last() == x);
        if sep(x) {
            assert((p1 + q).push(Seq::empty()) =~= p1 + q.push(Seq::empty()));
        } else {
            assert((p1 + q).update((p1 + q).len() - 1, (p1 + q).last().push(x)) =~= p1 + q.update(
                q.len() - 1,
                q.last().push(x),
            ));
        }
    }
}

/// The characters of some pieces, each counted with one separator after it.
pub open spec fn pieces_weight(ps: Seq<Seq<char>>) -> nat
    decreases ps.len(),
{
    if ps.len() == 0 {
        0
    } else {
        pieces_weight(ps.drop_last()) + ps.last().len() + 1
    }
}

/// The pieces of a text, each with a separator, hold one character more
/// than the text; and no piece is longer than the text.
pub proof fn lemma_pieces_weight(s: Seq<char>, sep: spec_fn(char) -> bool)
    ensures
        pieces_weight(pieces(s, sep)) == s.len() + 1,
        forall|i: int| 0 <= i < pieces(s, sep).len() ==> #[trigger] pieces(s, sep)[i].len() <= s.len(),
    decreases s.len(),
{
    if s.len() == 0 {
        let q = seq![Seq::<char>::empty()];
        assert(q.drop_last() =~= Seq::<Seq<char>>::empty());
        assert(pieces_weight(q) == pieces_weight(q.drop_last()) + q.last().len() + 1);
    } else {
        let p = pieces(s.drop_last(), sep);
        lemma_pieces_weight(s.drop_last(), sep);
        lemma_pieces_nonempty(s.drop_last(), sep);
        if sep(s.last()) {
            let q = p.push(Seq::<char>::empty());
            assert(pieces(s, sep) == q);
            assert(q.drop_last() =~= p);
            assert(pieces_weight(q) == pieces_weight(q.drop_last()) + q.last().len() + 1);
        } else {
            let q = p.update(p.len() - 1, p.last().push(s.last()));
            assert(pieces(s, sep) == q);
            assert(q.drop_last() =~= p.drop_last());
            assert(q.last() == p.last().push(s.last()));
            assert(pieces_weight(p) == pieces_weight(p.drop_last()) + p.last().len() + 1);
            assert(pieces_weight(q) == pieces_weight(q.drop_last()) + q.last().len() + 1);
            assert forall|i: int| 0 <= i < q.len() implies #[trigger] q[i].len() <= s.len() by {
                if i < q.len() - 1 {
                    assert(q[i] == p[i]);
                }
            }
        }
    }
}

/// A length bound on every sequence carries over to the non-empty ones.
pub proof fn lemma_nonempty_bound(ps: Seq<Seq<char>>, b: nat)
    requires
        forall|i: int| 0 <= i < ps.len() ==> #[trigger] ps[i].len() <= b,
    ensures
        forall|i: int| 0 <= i < nonempty(ps).len() ==> #[trigger] nonempty(ps)[i].len() <= b,
    decreases ps.len(),
{
    if ps.len() > 0 {
        assert forall|i: int| 0 <= i < ps.drop_last().len() implies #[trigger] ps.drop_last()[i].len() <= b by {
            assert(ps.drop_last()[i] == ps[i]);
        }
        lemma_nonempty_bound(ps.drop_last(), b);
        let r = nonempty(ps.drop_last());
        if ps.last().len() > 0 {
            assert(nonempty(ps) == r.push(ps.last()));
            assert forall|i: int| 0 <= i < nonempty(ps).len() implies #[trigger] nonempty(ps)[i].len() <= b by {
                if i < r.len() {
                    assert(nonempty(ps)[i] == r[i]);
                } else {
                    assert(nonempty(ps)[i] == ps[ps.len() - 1]);
                }
            }
        } else {
            assert(nonempty(ps) == r);
        }
    }
}

/// A text without separators is a single piece.
pub proof fn lemma_pieces_single(s: Seq<char>, sep: spec_fn(char) -> bool)
    requires
        forall|i: int| 0 <= i < s.len() ==> !sep(#[trigger] s[i]),
    ensures
        pieces(s, sep) == seq![s],
    decreases s.len(),
{
    if s.len() == 0 {
        assert(s =~= Seq::<char>::empty());
    } else {
        lemma_pieces_single(s.drop_last(), sep);
        assert(!sep(s[s.len() - 1]));
        assert(!sep(s.last()));
        let p = pieces(s.drop_last(), sep);
        assert(pieces(s, sep) == p.update(p.len() - 1, p.last().push(s.last())));
        assert(s.drop_last().push(s.last()) =~= s);
        assert(seq![s.drop_last()].update(0, s.drop_last().push(s.last())) =~= seq![s]);
    }
}

/// A text that begins and ends with a character that is not white space is
/// its own trim.
pub proof fn lemma_trim_unchanged(s: Seq<char>)
    requires
        s.len() > 0,
        !is_white_space(s[0]),
        !is_white_space(s.last()),
    ensures
        trim(s) == s,
{
}

/// Trimming makes no text longer.
pub proof fn lemma_trim_len(s: Seq<char>)
    ensures
        trim(s).len() <= s.len(),
{
    lemma_trim_start_len(s);
    lemma_trim_end_len(trim_start(s));
}

proof fn lemma_trim_start_len(s: Seq<char>)
    ensures
        trim_start(s).len() <= s.len(),
    decreases s.len(),
{
    if s.len() > 0 && is_white_space(s[0]) {
        lemma_trim_start_len(s.drop_first());
    }
}

proof fn lemma_trim_end_len(s: Seq<char>)
    ensures
        trim_end(s).len() <= s.len(),
    decreases s.len(),
{
    if s.len() > 0 && is_white_space(s.last()) {
        lemma_trim_end_len(s.drop_last());
    }
}

/// Cutting a comment makes no text longer.
pub proof fn lemma_before_comment_len(s: Seq<char>)
    ensures
        before_comment(s).len() <= s.len(),
    decreases s.len(),
{
    if s.len() > 0 && s[0] != ';' {
        lemma_before_comment_len(s.drop_first());
    }
}

/// Keeping the non-empty sequences keeps no more than there were, all non-empty.
pub proof fn lemma_nonempty_len(ps: Seq<Seq<char>>)
    ensures
        nonempty(ps).len() <= ps.len(),
        forall|i: int| 0 <= i < nonempty(ps).len() ==> #[trigger] nonempty(ps)[i].len() > 0,
    decreases ps.len(),
{
    if ps.len() > 0 {
        lemma_nonempty_len(ps.drop_last());
    }
}

/// The characters of `s`.
pub fn chars_of(s: &str) -> (v: Vec<char>)
    ensures
        v@ == s@,
{
    let mut v: Vec<char> = Vec::new();
    for c in it: s.chars()
        invariant
            v@ == it.seq().take(it.index() as int),
    {
        v.push(c);
    }
    v
}

/// `a` and `b` hold the same characters.
pub fn chars_equal(a: &[char], b: &[char]) -> (r: bool)
    ensures
        r == (a@ == b@),
{
    if a.len() != b.len() {
        return false;
    }
    let mut i: usize = 0;
    while i < a.len()
        invariant
            i <= a.len(),
            a.len() == b.len(),
            forall|k: int| 0 <= k < i ==> a@[k] == b@[k],
        decreases a.len() - i,
    {
        if a[i] != b[i] {
            return false;
        }
        i += 1;
    }
    assert(a@ =~= b@);
    true
}

/// A copy of `v`.
pub fn copy_chars(v: &[char]) -> (r: Vec<char>)
    ensures
        r@ == v@,
{
    let mut r: Vec<char> = Vec::with_capacity(v.len());
    let mut i: usize = 0;
    while i < v.len()
        invariant
            i <= v.len(),
            r@ == v@.take(i as int),
        decreases v.len() - i,
    {
        r.push(v[i]);
        i += 1;
        assert(r@ =~= v@.take(i as int));
    }
    assert(v@.take(v.len() as int) =~= v@);
    r
}

/// Splits `s` at separators, as [`pieces`] states it, where `newline_mode`
/// selects `\n` as the separator and otherwise whitespace.
fn split_pieces(s: &[char], newline_mode: bool) -> (r: Vec<Vec<char>>)
    ensures
        views(r@) == pieces(
            s@,
            if newline_mode {
                |c: char| is_newline(c)
            } else {
                |c: char| is_white_space(c)
            },
        ),
{
    let ghost sep = if newline_mode {
        |c: char| is_newline(c)
    } else {
        |c: char| is_white_space(c)
    };
    let mut done: Vec<Vec<char>> = Vec::new();
    let mut current: Vec<char> = Vec::new();
    let mut i: usize = 0;
    proof {
        assert(s@.take(0) =~= Seq::<char>::empty());
        assert(views(done@).push(current@) =~= pieces(s@.take(0), sep));
    }
    while i < s.len()
        invariant
            i <= s.len(),
            sep == (if newline_mode {
                |c: char| is_newline(c)
            } else {
                |c: char| is_white_space(c)
            }),
            views(done@).push(current@) == pieces(s@.take(i as int), sep),
        decreases s.len() - i,
    {
        let c = s[i];
        let is_sep = if newline_mode {
            c == '\n'
        } else {
            is_white_space_char(c)
        };
        let ghost before = s@.take(i as int);
        proof {
            assert(s@.take(i + 1).drop_last() =~= before);
            assert(s@.take(i + 1).last() == c);
            assert(sep(c) == is_sep);
        }
        if is_sep {
            let line = current;
            done.push(line);
            current = Vec::new();
            proof {
                assert(views(done@).push(current@) =~= pieces(before, sep).push(Seq::empty()));
            }
        } else {
            let ghost old_done = views(done@);
            let ghost old_current = current@;
            current.push(c);
            proof {
                let p = pieces(before, sep);
                assert(p =~= old_done.push(old_current));
                assert(views(done@).push(current@) =~= p.update(p.len() - 1, p.last().push(c)));
            }
        }
        i = i + 1;
    }
    done.push(current);
    proof {
        assert(s@.take(s.len() as int) =~= s@);
    }
    done
}

/// The lines of `s`.
pub fn split_lines(s: &[char]) -> (r: Vec<Vec<char>>)
    ensures
        views(r@) == lines(s@),
{
    split_pieces(s, true)
}

/// The whitespace-separated words of `s`.
pub fn split_whitespace(s: &[char]) -> (r: Vec<Vec<char>>)
    ensures
        views(r@) == words(s@),
{
    let all = split_pieces(s, false);
    let ghost ps = views(all@);
    let mut r: Vec<Vec<char>> = Vec::new();
    let mut k: usize = 0;
    while k < all.len()
        invariant
            k <= all.len(),
            ps == views(all@),
            ps == pieces(s@, |c: char| is_white_space(c)),
            views(r@) == nonempty(ps.take(k as int)),
        decreases all.len() - k,
    {
        proof {
            assert(ps.take(k + 1).drop_last() =~= ps.take(k as int));
        }
        if all[k].len() > 0 {
            let w = copy_chars(all[k].as_slice());
            r.push(w);
            proof {
                assert(views(r@) =~= nonempty(ps.take(k as int)).push(ps[k as int]));
            }
        }
        k = k + 1;
    }
    proof {
        assert(ps.take(all.len() as int) =~= ps);
    }
    r
}

/// `s` without leading and trailing whitespace.
pub fn trim_chars(s: &[char]) -> (r: Vec<char>)
    ensures
        r@ == trim(s@),
{
    let mut start: usize = 0;
    assert(s@.skip(0) =~= s@);
    while start < s.len() && is_white_space_char(s[start])
        invariant
            start <= s.len(),
            trim_start(s@) == trim_start(s@.skip(start as int)),
        decreases s.len() - start,
    {
        proof {
            assert(s@.skip(start as int).drop_first() =~= s@.skip(start + 1));
        }
        start = start + 1;
    }
    let mut end: usize = s.len();
    proof {
        assert(trim_start(s@.skip(start as int)) == s@.skip(start as int));
        assert(s@.skip(start as int) =~= s@.subrange(start as int, end as int));
    }
    while end > start && is_white_space_char(s[end - 1])
        invariant
            start <= end <= s.len(),
            trim(s@) == trim_end(s@.subrange(start as int, end as int)),
        decreases end,
    {
        proof {
            assert(s@.subrange(start as int, end as int).drop_last() =~= s@.subrange(
                start as int,
                end - 1,
            ));
        }
        end = end - 1;
    }
    let mut r: Vec<char> = Vec::with_capacity(end - start);
    let mut i: usize = start;
    while i < end
        invariant
            start <= i <= end <= s.len(),
            r@ == s@.subrange(start as int, i as int),
        decreases end - i,
    {
        r.push(s[i]);
        i = i + 1;
        proof {
            assert(r@ =~= s@.subrange(start as int, i as int));
        }
    }
    r
}

/// The part of `s` before its first `;`.
pub fn before_comment_chars(s: &[char]) -> (r: Vec<char>)
    ensures
        r@ == before_comment(s@),
{
    let mut r: Vec<char> = Vec::new();
    let mut i: usize = 0;
    while i < s.len() && s[i] != ';'
        invariant
            i <= s.len(),
            r@ == s@.take(i as int),
            forall|k: int| 0 <= k < i ==> s@[k] != ';',
        decreases s.len() - i,
    {
        r.push(s[i]);
        i = i + 1;
        proof {
            assert(r@ =~= s@.take(i as int));
        }
    }
    proof {
        lemma_before_comment(s@, i as int);
    }
    r
}

/// Where `s[..i]` holds no `;` and `i` is the end of `s` or a `;`, the part
/// before the first `;` is `s[..i]`.
pub proof fn lemma_before_comment(s: Seq<char>, i: int)
    requires
        0 <= i <= s.len(),
        forall|k: int| 0 <= k < i ==> s[k] != ';',
        i == s.len() || s[i] == ';',
    ensures
        before_comment(s) == s.take(i),
    decreases s.len(),
{
    if s.len() > 0 {
        if i == 0 {
            assert(s.take(0) =~= Seq::<char>::empty());
        } else {
            lemma_before_comment(s.drop_first(), i - 1);
            assert(seq![s[0]] + s.drop_first().take(i - 1) =~= s.take(i));
        }
    }
}

/// The ASCII upper-case form of a character.
pub open spec fn upper(c: char) -> char {
    if 'a' <= c && c <= 'z' {
        ((c as u32) - 32) as char
    } else {
        c
    }
}

/// The ASCII upper-case form of `s` (what `str::to_ascii_uppercase` gives).
pub open spec fn to_upper(s: Seq<char>) -> Seq<char> {
    s.map_values(|c: char| upper(c))
}

/// `s` with ASCII letters in upper case.
pub fn to_upper_chars(s: &[char]) -> (r: Vec<char>)
    ensures
        r@ == to_upper(s@),
{
    let mut r: Vec<char> = Vec::with_capacity(s.len());
    let mut i: usize = 0;
    while i < s.len()
        invariant
            i <= s.len(),
            r@ == to_upper(s@.take(i as int)),
        decreases s.len() - i,
    {
        let c = s[i];
        let u = if 'a' <= c && c <= 'z' {
            ((c as u8) - 32) as char
        } else {
            c
        };
        r.push(u);
        i = i + 1;
        proof {
            assert(r@ =~= to_upper(s@.take(i as int)));
        }
    }
    proof {
        assert(s@.take(s.len() as int) =~= s@);
    }
    r
}

/// The decimal numeral of `n`.
pub open spec fn decimal(n: nat) -> Seq<char>
    decreases n,
{
    if n < 10 {
        seq![digit_char(n)]
    } else {
        decimal(n / 10).push(digit_char(n % 10))
    }
}

/// The decimal digit character of `d` (below 10).
pub open spec fn digit_char(d: nat) -> char {
    (('0' as u32) + d) as char
}

/// The decimal numeral of `n`.
pub fn decimal_chars(n: usize) -> (r: Vec<char>)
    ensures
        r@ == decimal(n as nat),
    decreases n,
{
    if n < 10 {
        let c = ((n as u8) + 48u8) as char;
        let mut r: Vec<char> = Vec::new();
        r.push(c);
        proof {
            assert(r@ =~= seq![digit_char(n as nat)]);
        }
        r
    } else {
        let mut r = decimal_chars(n / 10);
        let d = n % 10;
        r.push(((d as u8) + 48u8) as char);
        r
    }
}

/// The string of the characters `chars`, built by std's `FromIterator<&char>`
/// for `String` (`collect`). Trusted, not proved: the contract claims that the
/// string holds exactly `chars`, in order, as that impl documents.
#[verifier::external_body]
pub(crate) fn string_of(chars: &[char]) -> (s: String)
    ensures
        s@ == chars@,
{
    chars.iter().collect()
}

} // verus!
