//! Text as sequences of characters: trimming, lines, words, numerals and padding.
use vstd::prelude::*;

verus! {

// ---- what the standard library is trusted for ----

/// `String::push` appends one character to the end of the string.
pub assume_specification[ String::push ](s: &mut String, c: char)
    ensures
        final(s)@ == old(s)@.push(c),
;

/// What `str::to_uppercase` makes of a text: a function of the characters alone.
pub uninterp spec fn uppercase(s: Seq<char>) -> Seq<char>;

/// Whether a text has ASCII characters only.
pub open spec fn is_ascii(s: Seq<char>) -> bool {
    forall|i: int| 0 <= i < s.len() ==> (#[trigger] s[i] as u32) < 128
}

/// An ASCII letter in upper case; any other character as it is.
pub open spec fn ascii_upper(c: char) -> char {
    if 'a' <= c <= 'z' {
        (c as u32 - 32) as char
    } else {
        c
    }
}

/// A text with its ASCII letters in upper case.
pub open spec fn ascii_uppercase(s: Seq<char>) -> Seq<char> {
    s.map_values(|c: char| ascii_upper(c))
}

/// Calls `str::to_uppercase`, whose result `uppercase` names. It is documented to upper-case ASCII
/// characters as `str::to_ascii_uppercase` does, which maps the letters from 'a' to 'z' to those from
/// 'A' to 'Z', and others in addition; of a text with ASCII characters only this tells the result.
#[verifier::external_body]
pub(crate) fn to_uppercase(s: &str) -> (r: String)
    ensures
        r@ == uppercase(s@),
        is_ascii(s@) ==> r@ == ascii_uppercase(s@),
{
    s.to_uppercase()
}

/// What `String::from_utf8_lossy` reads out of bytes: a function of the bytes alone.
pub uninterp spec fn utf8_lossy(bytes: Seq<u8>) -> Seq<char>;

/// Calls `String::from_utf8_lossy`, whose result `utf8_lossy` names.
#[verifier::external_body]
pub(crate) fn from_utf8_lossy(bytes: &Vec<u8>) -> (r: String)
    ensures
        r@ == utf8_lossy(bytes@),
{
    String::from_utf8_lossy(bytes).into_owned()
}

// ---- views ----

/// The texts that a sequence of strings holds.
pub open spec fn views(v: Seq<String>) -> Seq<Seq<char>> {
    v.map_values(|s: String| s@)
}

/// Pushing a string pushes its text.
pub broadcast proof fn lemma_views_push(v: Seq<String>, s: String)
    ensures
        #[trigger] views(v.push(s)) == views(v).push(s@),
{
    assert(views(v.push(s)) =~= views(v).push(s@));
}

/// The text of an optional string.
pub open spec fn opt_view(s: Option<String>) -> Option<Seq<char>> {
    match s {
        Some(t) => Some(t@),
        None => None,
    }
}

// ---- equality ----

/// Whether two texts are the same.
pub fn same_text(a: &str, b: &str) -> (r: bool)
    ensures
        r == (a@ == b@),
{
    a.to_owned() == b.to_owned()
}

/// The lower-case form of an ASCII letter; every other character is itself.
pub open spec fn ascii_lower(c: char) -> char {
    if 'A' <= c && c <= 'Z' {
        (c as int + 32) as char
    } else {
        c
    }
}

/// Whether two texts differ at most in the case of ASCII letters.
pub open spec fn same_but_case(a: Seq<char>, b: Seq<char>) -> bool {
    a.map_values(|c: char| ascii_lower(c)) == b.map_values(|c: char| ascii_lower(c))
}

fn to_ascii_lower(c: char) -> (r: char)
    ensures
        r == ascii_lower(c),
{
    if 'A' <= c && c <= 'Z' {
        (c as u8 + 32) as char
    } else {
        c
    }
}

/// Whether two texts differ at most in the case of ASCII letters.
pub fn eq_ignore_ascii_case(a: &str, b: &str) -> (r: bool)
    ensures
        r == same_but_case(a@, b@),
{
    let x = chars_of(a);
    let y = chars_of(b);
    let ghost p = a@.map_values(|c: char| ascii_lower(c));
    let ghost q = b@.map_values(|c: char| ascii_lower(c));
    if x.len() != y.len() {
        assert(p.len() != q.len());
        return false;
    }
    let n: usize = x.len();
    let mut i: usize = 0;
    while i < n
        invariant
            i <= n,
            n == x@.len(),
            n == y@.len(),
            x@ == a@,
            y@ == b@,
            p == a@.map_values(|c: char| ascii_lower(c)),
            q == b@.map_values(|c: char| ascii_lower(c)),
            forall|j: int| 0 <= j < i ==> p[j] == q[j],
        decreases n - i,
    {
        if to_ascii_lower(x[i]) != to_ascii_lower(y[i]) {
            assert(p[i as int] != q[i as int]);
            return false;
        }
        i += 1;
    }
    assert(p =~= q);
    true
}

/// Whether some text of `list` is `s` up to the case of ASCII letters.
pub open spec fn listed_but_case(list: Seq<Seq<char>>, s: Seq<char>) -> bool {
    exists|i: int| 0 <= i < list.len() && same_but_case(#[trigger] list[i], s)
}

/// Whether some string of `list` is `s` up to the case of ASCII letters.
pub fn any_eq_ignore_ascii_case(list: &Vec<String>, s: &str) -> (r: bool)
    ensures
        r == listed_but_case(views(list@), s@),
{
    let n: usize = list.len();
    let mut i: usize = 0;
    while i < n
        invariant
            i <= n,
            n == list@.len(),
            forall|j: int| 0 <= j < i ==> !same_but_case(#[trigger] views(list@)[j], s@),
        decreases n - i,
    {
        assert(views(list@)[i as int] == list@[i as int]@);
        if eq_ignore_ascii_case(list[i].as_str(), s) {
            return true;
        }
        i += 1;
    }
    false
}

// ---- characters ----

/// The characters of `s`.
pub fn chars_of(s: &str) -> (r: Vec<char>)
    ensures
        r@ == s@,
{
    let mut out: Vec<char> = Vec::new();
    for c in it: s.chars()
        invariant
            out@ == it.seq().take(it.index()),
            it.seq() == s@,
    {
        out.push(c);
        assert(it.seq().take(it.index() + 1) =~= it.seq().take(it.index()).push(c));
    }
    out
}

/// The characters of `v` from `from` up to `to`, as a string.
pub fn substring(v: &Vec<char>, from: usize, to: usize) -> (r: String)
    requires
        from <= to <= v@.len(),
    ensures
        r@ == v@.subrange(from as int, to as int),
{
    let mut out: String = String::new();
    let mut i: usize = from;
    while i < to
        invariant
            from <= i <= to <= v@.len(),
            out@ == v@.subrange(from as int, i as int),
        decreases to - i,
    {
        out.push(v[i]);
        assert(v@.subrange(from as int, i + 1) =~= v@.subrange(from as int, i as int).push(
            v@[i as int],
        ));
        i += 1;
    }
    out
}

/// Whether a character is Unicode white space.
pub open spec fn is_space(c: char) -> bool {
    ||| 0x9 <= c as u32 <= 0xd
    ||| c as u32 == 0x20
    ||| c as u32 == 0x85
    ||| c as u32 == 0xa0
    ||| c as u32 == 0x1680
    ||| 0x2000 <= c as u32 <= 0x200a
    ||| c as u32 == 0x2028
    ||| c as u32 == 0x2029
    ||| c as u32 == 0x202f
    ||| c as u32 == 0x205f
    ||| c as u32 == 0x3000
}

/// Whether a character is Unicode white space.
pub fn is_whitespace(c: char) -> (r: bool)
    ensures
        r == is_space(c),
{
    let n: u32 = c as u32;
    (0x9 <= n && n <= 0xd) || n == 0x20 || n == 0x85 || n == 0xa0 || n == 0x1680 || (0x2000 <= n
        && n <= 0x200a) || n == 0x2028 || n == 0x2029 || n == 0x202f || n == 0x205f || n == 0x3000
}

/// The position of the first `c` in `s`, or the length of `s` where there is none.
pub open spec fn first_index(s: Seq<char>, c: char) -> nat
    decreases s.len(),
{
    if s.len() == 0 || s[0] == c {
        0
    } else {
        1 + first_index(s.drop_first(), c)
    }
}

/// Before its first occurrence a character does not occur.
pub proof fn lemma_before_first_index(s: Seq<char>, c: char)
    ensures
        !s.take(first_index(s, c) as int).contains(c),
    decreases s.len(),
{
    lemma_first_index_bound(s, c);
    let head = s.take(first_index(s, c) as int);
    if s.len() > 0 && s[0] != c {
        let rest = s.drop_first();
        lemma_before_first_index(rest, c);
        lemma_first_index_bound(rest, c);
        let tail = rest.take(first_index(rest, c) as int);
        assert forall|i: int| 0 <= i < head.len() implies head[i] != c by {
            if i > 0 {
                assert(head[i] == tail[i - 1]);
                assert(tail.contains(tail[i - 1]));
            }
        }
    }
}

/// `first_index` lies within the text or at its end.
pub proof fn lemma_first_index_bound(s: Seq<char>, c: char)
    ensures
        first_index(s, c) <= s.len(),
    decreases s.len(),
{
    if s.len() > 0 && s[0] != c {
        lemma_first_index_bound(s.drop_first(), c);
    }
}

/// `first_index` is where `c` first stands.
pub proof fn lemma_first_index(s: Seq<char>, c: char, k: int)
    requires
        0 <= k <= s.len(),
        forall|i: int| 0 <= i < k ==> s[i] != c,
        k < s.len() ==> s[k] == c,
    ensures
        first_index(s, c) == k,
    decreases s.len(),
{
    if s.len() > 0 && s[0] != c {
        assert forall|i: int| 0 <= i < k - 1 implies s.drop_first()[i] != c by {
            assert(s[i + 1] != c);
        }
        lemma_first_index(s.drop_first(), c, k - 1);
    }
}

/// The position of the first `c` in `v` at or after `from`; the length of `v` where there is none.
pub fn find_from(v: &Vec<char>, from: usize, c: char) -> (r: usize)
    requires
        from <= v@.len(),
    ensures
        from <= r <= v@.len(),
        r == from + first_index(v@.skip(from as int), c),
{
    let n: usize = v.len();
    let mut i: usize = from;
    while i < n && v[i] != c
        invariant
            from <= i <= n,
            n == v@.len(),
            forall|j: int| from <= j < i ==> v@[j] != c,
        decreases n - i,
    {
        i += 1;
    }
    proof {
        let t = v@.skip(from as int);
        assert forall|j: int| 0 <= j < i - from implies t[j] != c by {
            assert(v@[j + from] != c);
        }
        lemma_first_index(t, c, i - from);
    }
    i
}

// ---- trimming ----

/// `s` without its leading white space.
pub open spec fn trimmed_start(s: Seq<char>) -> Seq<char>
    decreases s.len(),
{
    if s.len() > 0 && is_space(s[0]) {
        trimmed_start(s.drop_first())
    } else {
        s
    }
}

/// `s` without its trailing white space.
pub open spec fn trimmed_end(s: Seq<char>) -> Seq<char>
    decreases s.len(),
{
    if s.len() > 0 && is_space(s.last()) {
        trimmed_end(s.drop_last())
    } else {
        s
    }
}

/// `s` without its leading and trailing white space.
pub open spec fn trimmed(s: Seq<char>) -> Seq<char> {
    trimmed_end(trimmed_start(s))
}

/// Trimming cuts a text down to its first character that is not white space.
pub proof fn lemma_trimmed_start(s: Seq<char>)
    ensures
        trimmed_start(s).len() <= s.len(),
        trimmed_start(s) == s.skip(s.len() - trimmed_start(s).len()),
        trimmed_start(s).len() > 0 ==> !is_space(trimmed_start(s)[0]),
    decreases s.len(),
{
    if s.len() > 0 && is_space(s[0]) {
        lemma_trimmed_start(s.drop_first());
        assert(trimmed_start(s) =~= s.skip(s.len() - trimmed_start(s).len()));
    } else {
        assert(s.skip(0) =~= s);
    }
}

proof fn lemma_trimmed_end(s: Seq<char>)
    ensures
        trimmed_end(s).len() <= s.len(),
        trimmed_end(s) == s.take(trimmed_end(s).len() as int),
        trimmed_end(s).len() > 0 ==> !is_space(trimmed_end(s).last()),
    decreases s.len(),
{
    if s.len() > 0 && is_space(s.last()) {
        lemma_trimmed_end(s.drop_last());
        assert(trimmed_end(s) =~= s.take(trimmed_end(s).len() as int));
    } else {
        assert(s.take(s.len() as int) =~= s);
    }
}

/// Trimming a text twice is the same as trimming it once, and it adds no character.
pub proof fn law_trimming(s: Seq<char>)
    ensures
        trimmed(trimmed(s)) == trimmed(s),
        forall|c: char| #[trigger] trimmed(s).contains(c) ==> s.contains(c),
{
    let a = trimmed_start(s);
    let t = trimmed(s);
    lemma_trimmed_start(s);
    lemma_trimmed_end(a);
    if t.len() > 0 {
        assert(t[0] == a[0]);
        assert(trimmed_start(t) == t);
        assert(trimmed_end(t) == t);
    }
    assert forall|c: char| #[trigger] t.contains(c) implies s.contains(c) by {
        let i = choose|i: int| 0 <= i < t.len() && t[i] == c;
        assert(a[i] == c);
        assert(s[s.len() - a.len() + i] == c);
    }
}

/// Upper case leaves a text without white space around it so, and adds no colon.
pub proof fn lemma_ascii_uppercase(s: Seq<char>)
    requires
        trimmed(s) == s,
    ensures
        trimmed(ascii_uppercase(s)) == ascii_uppercase(s),
        ascii_uppercase(ascii_uppercase(s)) == ascii_uppercase(s),
        !s.contains(':') ==> !ascii_uppercase(s).contains(':'),
{
    let u = ascii_uppercase(s);
    lemma_trimmed_start(s);
    lemma_trimmed_end(trimmed_start(s));
    if s.len() > 0 {
        assert(trimmed_start(s) =~= s);
        assert(!is_space(s[0]) && !is_space(s.last()));
        assert(!is_space(u[0]) && !is_space(u.last()));
    }
    assert(ascii_uppercase(u) =~= u);
    if u.contains(':') {
        let i = choose|i: int| 0 <= i < u.len() && u[i] == ':';
        assert(s[i] == ':');
    }
}

/// The first position at or after `from` that holds no white space.
fn skip_spaces(v: &Vec<char>, from: usize) -> (r: usize)
    requires
        from <= v@.len(),
    ensures
        from <= r <= v@.len(),
        v@.skip(r as int) == trimmed_start(v@.skip(from as int)),
        r < v@.len() ==> !is_space(v@[r as int]),
{
    let n: usize = v.len();
    let mut i: usize = from;
    while i < n && is_whitespace(v[i])
        invariant
            from <= i <= n,
            n == v@.len(),
            trimmed_start(v@.skip(i as int)) == trimmed_start(v@.skip(from as int)),
        decreases n - i,
    {
        assert(v@.skip(i as int).drop_first() =~= v@.skip(i + 1));
        assert(v@.skip(i as int)[0] == v@[i as int]);
        i += 1;
    }
    proof {
        if i < n {
            assert(v@.skip(i as int)[0] == v@[i as int]);
        }
    }
    i
}

/// `s` without its leading and trailing white space.
pub fn trim(s: &str) -> (r: String)
    ensures
        r@ == trimmed(s@),
{
    let v = chars_of(s);
    let lo: usize = skip_spaces(&v, 0);
    let mut hi: usize = v.len();
    proof {
        assert(v@.skip(0) =~= s@);
        assert(v@.subrange(lo as int, hi as int) =~= v@.skip(lo as int));
    }
    while lo < hi && is_whitespace(v[hi - 1])
        invariant
            lo <= hi <= v@.len(),
            trimmed_end(v@.subrange(lo as int, hi as int)) == trimmed(s@),
        decreases hi,
    {
        let ghost t = v@.subrange(lo as int, hi as int);
        assert(t.drop_last() =~= v@.subrange(lo as int, hi - 1));
        assert(t.last() == v@[hi - 1]);
        hi -= 1;
    }
    proof {
        let t = v@.subrange(lo as int, hi as int);
        if lo < hi {
            assert(t.last() == v@[hi - 1]);
        }
    }
    substring(&v, lo, hi)
}

// ---- lines ----

/// `s` without a final carriage return.
pub open spec fn without_cr(s: Seq<char>) -> Seq<char> {
    if s.len() > 0 && s.last() == '\r' {
        s.drop_last()
    } else {
        s
    }
}

/// The lines of `s`: each ends at a line feed, which may follow a carriage return, or at the end
/// of the text.
pub open spec fn lines_of(s: Seq<char>) -> Seq<Seq<char>>
    decreases s.len(),
{
    if s.len() == 0 {
        Seq::empty()
    } else {
        let k = first_index(s, '\n') as int;
        if k >= s.len() {
            seq![s]
        } else {
            seq![without_cr(s.take(k))] + lines_of(s.skip(k + 1))
        }
    }
}

/// The lines of `s`.
pub fn lines(s: &str) -> (r: Vec<String>)
    ensures
        views(r@) == lines_of(s@),
{
    broadcast use lemma_views_push;

    let v = chars_of(s);
    let n: usize = v.len();
    let mut out: Vec<String> = Vec::new();
    let mut pos: usize = 0;
    proof {
        assert(v@.skip(0) =~= s@);
        assert(views(out@) + lines_of(s@) =~= lines_of(s@));
    }
    while pos < n
        invariant
            pos <= n,
            n == v@.len(),
            views(out@) + lines_of(v@.skip(pos as int)) == lines_of(s@),
        decreases n - pos,
    {
        let ghost rest = v@.skip(pos as int);
        let ghost before = views(out@);
        let k: usize = find_from(&v, pos, '\n');
        if k == n {
            let line = substring(&v, pos, n);
            assert(line@ =~= rest);
            out.push(line);
            pos = n;
            assert(v@.skip(n as int).len() == 0);
            assert(views(out@) + lines_of(v@.skip(n as int)) =~= before + seq![rest]);
        } else {
            let end: usize = if k > pos && v[k - 1] == '\r' {
                k - 1
            } else {
                k
            };
            let line = substring(&v, pos, end);
            proof {
                let cut = rest.take(k - pos);
                if k > pos {
                    assert(cut.last() == v@[k - 1]);
                }
                assert(line@ =~= without_cr(cut));
                assert(rest.skip(k - pos + 1) =~= v@.skip(k + 1));
            }
            out.push(line);
            pos = k + 1;
            assert(views(out@) + lines_of(v@.skip(pos as int)) =~= before + (seq![line@] + lines_of(
                v@.skip(pos as int),
            )));
        }
    }
    assert(v@.skip(pos as int).len() == 0);
    assert(views(out@) + lines_of(v@.skip(pos as int)) =~= views(out@));
    out
}

// ---- words ----

/// How many characters of `s` come before its first white space.
pub open spec fn word_len(s: Seq<char>) -> nat
    decreases s.len(),
{
    if s.len() == 0 || is_space(s[0]) {
        0
    } else {
        1 + word_len(s.drop_first())
    }
}

proof fn lemma_word_len(s: Seq<char>, k: int)
    requires
        0 <= k <= s.len(),
        forall|i: int| 0 <= i < k ==> !is_space(s[i]),
        k < s.len() ==> is_space(s[k]),
    ensures
        word_len(s) == k,
    decreases s.len(),
{
    if s.len() > 0 && !is_space(s[0]) {
        assert forall|i: int| 0 <= i < k - 1 implies !is_space(s.drop_first()[i]) by {
            assert(!is_space(s[i + 1]));
        }
        lemma_word_len(s.drop_first(), k - 1);
    }
}

/// A word lies within the text.
pub proof fn lemma_word_len_bound(s: Seq<char>)
    ensures
        word_len(s) <= s.len(),
    decreases s.len(),
{
    if s.len() > 0 && !is_space(s[0]) {
        lemma_word_len_bound(s.drop_first());
    }
}

/// The words of `s`: its longest runs of characters that are not white space.
pub open spec fn words_of(s: Seq<char>) -> Seq<Seq<char>>
    decreases s.len(),
{
    let t = trimmed_start(s);
    proof {
        lemma_trimmed_start(s);
        lemma_word_len_bound(t);
    }
    if t.len() == 0 {
        Seq::empty()
    } else {
        let k = word_len(t) as int;
        seq![t.take(k)] + words_of(t.skip(k))
    }
}

/// The words of `s`.
pub fn words(s: &str) -> (r: Vec<String>)
    ensures
        views(r@) == words_of(s@),
{
    broadcast use lemma_views_push;

    let v = chars_of(s);
    let n: usize = v.len();
    let mut out: Vec<String> = Vec::new();
    let mut pos: usize = 0;
    proof {
        assert(v@.skip(0) =~= s@);
        assert(views(out@) + words_of(s@) =~= words_of(s@));
    }
    while pos < n
        invariant
            pos <= n,
            n == v@.len(),
            views(out@) + words_of(v@.skip(pos as int)) == words_of(s@),
        decreases n - pos,
    {
        let ghost before = views(out@);
        let lo: usize = skip_spaces(&v, pos);
        let ghost t = v@.skip(lo as int);
        let mut hi: usize = lo;
        while hi < n && !is_whitespace(v[hi])
            invariant
                lo <= hi <= n,
                n == v@.len(),
                forall|j: int| lo <= j < hi ==> !is_space(#[trigger] v@[j]),
            decreases n - hi,
        {
            hi += 1;
        }
        if lo < n {
            proof {
                assert(t[0] == v@[lo as int]);
                assert forall|i: int| 0 <= i < hi - lo implies !is_space(t[i]) by {
                    assert(!is_space(v@[i + lo]));
                }
                lemma_word_len(t, hi - lo);
                assert(t.take(hi - lo) =~= v@.subrange(lo as int, hi as int));
                assert(t.skip(hi - lo) =~= v@.skip(hi as int));
            }
            let word = substring(&v, lo, hi);
            out.push(word);
            assert(views(out@) + words_of(v@.skip(hi as int)) =~= before + (seq![word@] + words_of(
                v@.skip(hi as int),
            )));
        } else {
            assert(t.len() == 0);
            assert(words_of(v@.skip(pos as int)) =~= Seq::<Seq<char>>::empty());
            assert(words_of(t) =~= Seq::<Seq<char>>::empty());
        }
        pos = hi;
    }
    assert(v@.skip(pos as int).len() == 0);
    assert(views(out@) + words_of(v@.skip(pos as int)) =~= views(out@));
    out
}

// ---- numerals ----

/// The decimal digit `d` as a character.
pub open spec fn digit(d: nat) -> char {
    (48 + d) as char
}

/// The decimal numeral of `n`, without leading zeros.
pub open spec fn decimal(n: nat) -> Seq<char>
    decreases n,
{
    if n < 10 {
        seq![digit(n)]
    } else {
        decimal(n / 10).push(digit(n % 10))
    }
}

/// Appends the decimal numeral of `n` to `out`.
pub fn push_decimal(out: &mut String, n: u64)
    ensures
        final(out)@ == old(out)@ + decimal(n as nat),
    decreases n,
{
    let d: u8 = (n % 10) as u8;
    if n >= 10 {
        push_decimal(out, n / 10);
    }
    out.push((48 + d) as char);
}

/// The decimal numeral of `n`.
pub fn to_decimal(n: u64) -> (r: String)
    ensures
        r@ == decimal(n as nat),
{
    let mut out: String = String::new();
    push_decimal(&mut out, n);
    assert(out@ =~= decimal(n as nat));
    out
}

/// Two numbers with the same numeral are the same number.
pub proof fn lemma_decimal_injective(a: nat, b: nat)
    requires
        decimal(a) == decimal(b),
    ensures
        a == b,
    decreases a,
{
    assert(decimal(a).last() == digit(a % 10));
    assert(decimal(b).last() == digit(b % 10));
    assert(a % 10 == b % 10);
    lemma_decimal_len(a / 10);
    lemma_decimal_len(b / 10);
    if a >= 10 && b >= 10 {
        assert(decimal(a).drop_last() =~= decimal(a / 10));
        assert(decimal(b).drop_last() =~= decimal(b / 10));
        lemma_decimal_injective(a / 10, b / 10);
    }
}

/// A numeral has at least one digit.
pub proof fn lemma_decimal_len(n: nat)
    ensures
        decimal(n).len() >= 1,
    decreases n,
{
    if n >= 10 {
        lemma_decimal_len(n / 10);
    }
}

// ---- joining and padding ----

/// The texts of `parts` with `sep` between each two of them.
pub open spec fn joined(parts: Seq<Seq<char>>, sep: Seq<char>) -> Seq<char>
    decreases parts.len(),
{
    if parts.len() == 0 {
        Seq::empty()
    } else if parts.len() == 1 {
        parts[0]
    } else {
        joined(parts.drop_last(), sep) + sep + parts.last()
    }
}

/// The strings of `parts` with `sep` between each two of them.
pub fn join(parts: &Vec<String>, sep: &str) -> (r: String)
    ensures
        r@ == joined(views(parts@), sep@),
{
    let n: usize = parts.len();
    let mut out: String = String::new();
    let mut i: usize = 0;
    while i < n
        invariant
            i <= n,
            n == parts@.len(),
            out@ == joined(views(parts@).take(i as int), sep@),
        decreases n - i,
    {
        let ghost done = views(parts@).take(i as int);
        if i > 0 {
            out.append(sep);
        }
        out.append(parts[i].as_str());
        proof {
            let next = views(parts@).take(i + 1);
            assert(next.drop_last() =~= done);
            assert(next.last() == parts@[i as int]@);
            if i == 0 {
                assert(out@ =~= next[0]);
            }
        }
        i += 1;
    }
    assert(views(parts@).take(n as int) =~= views(parts@));
    out
}

/// The texts of `parts`, each with a line end after it.
pub open spec fn line_by_line(parts: Seq<Seq<char>>) -> Seq<char>
    decreases parts.len(),
{
    if parts.len() == 0 {
        Seq::empty()
    } else {
        line_by_line(parts.drop_last()) + parts.last() + "\n"@
    }
}

/// The strings of `parts`, each with a line end after it.
pub fn write_lines(parts: &Vec<String>) -> (r: String)
    ensures
        r@ == line_by_line(views(parts@)),
{
    let n: usize = parts.len();
    let mut out: String = String::new();
    let mut i: usize = 0;
    assert(out@ =~= line_by_line(views(parts@).take(0)));
    while i < n
        invariant
            i <= n,
            n == parts@.len(),
            out@ == line_by_line(views(parts@).take(i as int)),
        decreases n - i,
    {
        out.append(parts[i].as_str());
        out.append("\n");
        proof {
            let next = views(parts@).take(i + 1);
            assert(next.drop_last() =~= views(parts@).take(i as int));
            assert(next.last() == parts@[i as int]@);
        }
        i += 1;
    }
    assert(views(parts@).take(n as int) =~= views(parts@));
    out
}

/// As many spaces as `s` is short of `width` characters.
pub open spec fn padding(s: Seq<char>, width: nat) -> Seq<char> {
    Seq::new(
        if s.len() < width {
            (width - s.len()) as nat
        } else {
            0
        },
        |i: int| ' ',
    )
}

/// As many spaces as `s` is short of `width` characters.
fn spaces_for(s: &str, width: usize) -> (r: String)
    ensures
        r@ == padding(s@, width as nat),
{
    let v = chars_of(s);
    let mut out: String = String::new();
    let mut i: usize = v.len();
    while i < width
        invariant
            v@.len() <= i,
            i <= width || i == v@.len(),
            out@.len() == i - v@.len(),
            forall|j: int| 0 <= j < out@.len() ==> out@[j] == ' ',
        decreases width - i,
    {
        out.push(' ');
        i += 1;
    }
    assert(out@ =~= padding(s@, width as nat));
    out
}

/// `s` with spaces after it up to `width` characters.
pub fn pad_right(s: &str, width: usize) -> (r: String)
    ensures
        r@ == s@ + padding(s@, width as nat),
{
    let mut out: String = s.to_owned();
    let pad = spaces_for(s, width);
    out.append(pad.as_str());
    out
}

/// `s` with spaces before it up to `width` characters.
pub fn pad_left(s: &str, width: usize) -> (r: String)
    ensures
        r@ == padding(s@, width as nat) + s@,
{
    let mut out = spaces_for(s, width);
    out.append(s);
    out
}

// ---- what the operations on text are for ----

/// White space around a text with a character in its middle that is none is cut at its two ends.
pub proof fn lemma_trimmed_around(a: Seq<char>, c: char, b: Seq<char>)
    requires
        !is_space(c),
    ensures
        trimmed(a + seq![c] + b) == trimmed_start(a) + seq![c] + trimmed_end(b),
{
    lemma_trimmed_start_around(a, seq![c] + b);
    assert(a + seq![c] + b =~= a + (seq![c] + b));
    let t = trimmed_start(a) + (seq![c] + b);
    assert(t =~= (trimmed_start(a) + seq![c]) + b);
    lemma_trimmed_end_around(trimmed_start(a) + seq![c], b);
}

proof fn lemma_trimmed_start_around(a: Seq<char>, b: Seq<char>)
    requires
        b.len() > 0,
        !is_space(b[0]),
    ensures
        trimmed_start(a + b) == trimmed_start(a) + b,
    decreases a.len(),
{
    if a.len() == 0 {
        assert(a + b =~= b);
        assert(trimmed_start(a) + b =~= b);
    } else if is_space(a[0]) {
        assert((a + b).drop_first() =~= a.drop_first() + b);
        lemma_trimmed_start_around(a.drop_first(), b);
    }
}

proof fn lemma_trimmed_end_around(a: Seq<char>, b: Seq<char>)
    requires
        a.len() > 0,
        !is_space(a.last()),
    ensures
        trimmed_end(a + b) == a + trimmed_end(b),
    decreases b.len(),
{
    if b.len() == 0 {
        assert(a + b =~= a);
        assert(a + trimmed_end(b) =~= a);
    } else if is_space(b.last()) {
        assert((a + b).drop_last() =~= a + b.drop_last());
        lemma_trimmed_end_around(a, b.drop_last());
    }
}

/// White space that is cut at one end need not be cut there again.
pub proof fn lemma_trimmed_halves(s: Seq<char>)
    ensures
        trimmed(trimmed_start(s)) == trimmed(s),
        trimmed(trimmed_end(s)) == trimmed(s),
    decreases s.len(),
{
    lemma_trimmed_start(s);
    let a = trimmed_start(s);
    assert(trimmed_start(a) == a);
    if s.len() > 0 && is_space(s.last()) {
        let init = s.drop_last();
        lemma_trimmed_halves(init);
        lemma_space_at_end(init, s.last());
        assert(init.push(s.last()) =~= s);
    }
}

proof fn lemma_space_at_end(s: Seq<char>, c: char)
    requires
        is_space(c),
    ensures
        trimmed(s.push(c)) == trimmed(s),
    decreases s.len(),
{
    let t = s.push(c);
    if s.len() == 0 {
        assert(t.drop_first() =~= s);
        assert(trimmed_start(t) == trimmed_start(s));
    } else if is_space(s[0]) {
        assert(t.drop_first() =~= s.drop_first().push(c));
        lemma_space_at_end(s.drop_first(), c);
    } else {
        assert(trimmed_start(t) == t);
        assert(t.drop_last() =~= s);
    }
}

/// Texts differ at most in the case of ASCII letters where they have as many characters and each two
/// at one place are the same or the two cases of one such letter.
pub proof fn law_same_but_case(a: Seq<char>, b: Seq<char>)
    ensures
        same_but_case(a, b) <==> {
            &&& a.len() == b.len()
            &&& forall|i: int|
                0 <= i < a.len() ==> {
                    ||| #[trigger] a[i] == b[i]
                    ||| 'A' <= a[i] <= 'Z' && b[i] as int == a[i] as int + 32
                    ||| 'A' <= b[i] <= 'Z' && a[i] as int == b[i] as int + 32
                }
        },
{
    let p = a.map_values(|c: char| ascii_lower(c));
    let q = b.map_values(|c: char| ascii_lower(c));
    if same_but_case(a, b) {
        assert(a.len() == p.len() && b.len() == q.len());
        assert forall|i: int| 0 <= i < a.len() implies {
            ||| #[trigger] a[i] == b[i]
            ||| 'A' <= a[i] <= 'Z' && b[i] as int == a[i] as int + 32
            ||| 'A' <= b[i] <= 'Z' && a[i] as int == b[i] as int + 32
        } by {
            assert(p[i] == q[i]);
        }
    } else if a.len() == b.len() {
        if forall|i: int|
            0 <= i < a.len() ==> {
                ||| #[trigger] a[i] == b[i]
                ||| 'A' <= a[i] <= 'Z' && b[i] as int == a[i] as int + 32
                ||| 'A' <= b[i] <= 'Z' && a[i] as int == b[i] as int + 32
            } {
            assert forall|i: int| 0 <= i < p.len() implies p[i] == q[i] by {
                assert(a[i] == a[i]);
            }
            assert(p =~= q);
        }
    }
}

/// A list holds what its parts hold, and one text holds itself, whatever the case of its letters.
pub proof fn law_listed_but_case(
    a: Seq<Seq<char>>,
    b: Seq<Seq<char>>,
    one: Seq<char>,
    s: Seq<char>,
)
    ensures
        listed_but_case(a + b, s) <==> listed_but_case(a, s) || listed_but_case(b, s),
        listed_but_case(seq![one], s) <==> same_but_case(one, s),
        !listed_but_case(Seq::empty(), s),
{
    let all = a + b;
    if listed_but_case(all, s) {
        let i = choose|i: int| 0 <= i < all.len() && same_but_case(#[trigger] all[i], s);
        if i < a.len() {
            assert(a[i] == all[i]);
        } else {
            assert(b[i - a.len()] == all[i]);
        }
    }
    if listed_but_case(a, s) {
        let i = choose|i: int| 0 <= i < a.len() && same_but_case(#[trigger] a[i], s);
        assert(all[i] == a[i]);
    }
    if listed_but_case(b, s) {
        let i = choose|i: int| 0 <= i < b.len() && same_but_case(#[trigger] b[i], s);
        assert(all[i + a.len()] == b[i]);
    }
    assert(seq![one][0] == one);
}

/// The texts of strings stand where the strings stand.
pub proof fn law_views(v: Seq<String>, s: String)
    ensures
        views(v).len() == v.len(),
        forall|i: int| 0 <= i < v.len() ==> #[trigger] views(v)[i] == v[i]@,
        opt_view(Some(s)) == Some(s@),
        opt_view(None) is None,
{
}

/// In upper case a text keeps its length, and only the letters from 'a' to 'z' change: each to the
/// character 32 before it.
pub proof fn law_ascii_uppercase(s: Seq<char>, i: int)
    requires
        0 <= i < s.len(),
    ensures
        ascii_uppercase(s).len() == s.len(),
        ascii_uppercase(s)[i] as int == s[i] as int - (if 97 <= s[i] as int <= 122 {
            32int
        } else {
            0
        }),
{
}

/// The characters that are white space, by their numbers.
pub open spec fn space_codes() -> Seq<u32> {
    seq![
        9u32,
        10,
        11,
        12,
        13,
        32,
        133,
        160,
        5760,
        8192,
        8193,
        8194,
        8195,
        8196,
        8197,
        8198,
        8199,
        8200,
        8201,
        8202,
        8232,
        8233,
        8239,
        8287,
        12288,
    ]
}

/// White space is what has one of these numbers.
pub proof fn law_spaces(c: char)
    ensures
        is_space(c) <==> space_codes().contains(c as u32),
{
    let t = space_codes();
    let n = c as u32;
    if is_space(c) {
        let k: int = if n <= 13 {
            n - 9
        } else if n == 32 {
            5
        } else if n == 133 {
            6
        } else if n == 160 {
            7
        } else if n == 5760 {
            8
        } else if n <= 8202 {
            n - 8192 + 9
        } else if n == 8232 {
            20
        } else if n == 8233 {
            21
        } else if n == 8239 {
            22
        } else if n == 8287 {
            23
        } else {
            24
        };
        assert(t[k] == n);
    }
}

/// Trimming cuts off white space at both ends and nothing else, and leaves none there.
pub proof fn law_trimmed_is_the_middle(s: Seq<char>)
    ensures
        exists|a: Seq<char>, b: Seq<char>|
            {
                &&& s == #[trigger] (a + trimmed(s) + b)
                &&& forall|i: int| 0 <= i < a.len() ==> is_space(#[trigger] a[i])
                &&& forall|i: int| 0 <= i < b.len() ==> is_space(#[trigger] b[i])
            },
        trimmed(s).len() > 0 ==> !is_space(trimmed(s)[0]) && !is_space(trimmed(s).last()),
{
    let m = trimmed_start(s);
    let t = trimmed(s);
    lemma_trimmed_start(s);
    lemma_trimmed_end(m);
    lemma_cut_is_space(s);
    let a = s.take(s.len() - m.len());
    let b = m.skip(t.len() as int);
    lemma_cut_end_is_space(m);
    assert(s =~= a + t + b);
    if t.len() > 0 {
        assert(t[0] == m[0]);
    }
}

proof fn lemma_cut_is_space(s: Seq<char>)
    ensures
        trimmed_start(s).len() <= s.len(),
        forall|i: int| 0 <= i < s.len() - trimmed_start(s).len() ==> is_space(#[trigger] s[i]),
    decreases s.len(),
{
    if s.len() > 0 && is_space(s[0]) {
        let rest = s.drop_first();
        lemma_cut_is_space(rest);
        assert forall|i: int| 0 <= i < s.len() - trimmed_start(s).len() implies is_space(
            #[trigger] s[i],
        ) by {
            if i > 0 {
                assert(rest[i - 1] == s[i]);
            }
        }
    }
}

proof fn lemma_cut_end_is_space(s: Seq<char>)
    ensures
        trimmed_end(s).len() <= s.len(),
        forall|i: int| trimmed_end(s).len() <= i < s.len() ==> is_space(#[trigger] s[i]),
    decreases s.len(),
{
    if s.len() > 0 && is_space(s.last()) {
        let rest = s.drop_last();
        lemma_cut_end_is_space(rest);
        assert forall|i: int| trimmed_end(s).len() <= i < s.len() implies is_space(
            #[trigger] s[i],
        ) by {
            if i < rest.len() {
                assert(rest[i] == s[i]);
            }
        }
    }
}

/// A line goes up to its line feed, and a carriage return right before that is not part of it; what
/// follows the line feed is read as if nothing came before it. The last line needs no line feed.
pub proof fn law_lines(line: Seq<char>, rest: Seq<char>)
    requires
        !line.contains('\n'),
    ensures
        line.len() == 0 || line.last() != '\r' ==> lines_of(line + seq!['\n'] + rest) == seq![line]
            + lines_of(rest),
        lines_of(line + seq!['\r', '\n'] + rest) == seq![line] + lines_of(rest),
        line.len() > 0 ==> lines_of(line) == seq![line],
        lines_of(Seq::empty()).len() == 0,
{
    assert forall|i: int| 0 <= i < line.len() implies line[i] != '\n' by {
        if line[i] == '\n' {
            assert(line.contains('\n'));
        }
    }
    let n = line.len() as int;
    lemma_first_index(line, '\n', n);
    let s = line + seq!['\n'] + rest;
    assert(s[n] == '\n');
    lemma_first_index(s, '\n', n);
    assert(s.take(n) =~= line);
    assert(s.skip(n + 1) =~= rest);
    let t = line + seq!['\r', '\n'] + rest;
    assert(t[n] == '\r' && t[n + 1] == '\n');
    assert forall|i: int| 0 <= i < n + 1 implies t[i] != '\n' by {
        if i < n {
            assert(t[i] == line[i]);
        }
    }
    lemma_first_index(t, '\n', n + 1);
    let cut = t.take(n + 1);
    assert(cut.last() == '\r');
    assert(cut.drop_last() =~= line);
    assert(t.skip(n + 2) =~= rest);
}

/// White space parts words and is part of none; a text without white space is one word.
pub proof fn law_words(word: Seq<char>, gap: Seq<char>, rest: Seq<char>)
    requires
        word.len() > 0,
        forall|i: int| 0 <= i < word.len() ==> !is_space(#[trigger] word[i]),
        gap.len() > 0,
        forall|i: int| 0 <= i < gap.len() ==> is_space(#[trigger] gap[i]),
    ensures
        words_of(word + gap + rest) == seq![word] + words_of(rest),
        words_of(gap + rest) == words_of(rest),
        words_of(word) == seq![word],
        words_of(Seq::empty()).len() == 0,
    decreases gap.len(),
{
    lemma_leading_space(gap, rest);
    let n = word.len() as int;
    let s = word + gap + rest;
    assert(s[0] == word[0]);
    assert(s[n] == gap[0]);
    assert forall|i: int| 0 <= i < n implies !is_space(s[i]) by {
        assert(s[i] == word[i]);
    }
    lemma_word_len(s, n);
    assert(s.take(n) =~= word);
    assert(s.skip(n) =~= gap + rest);
    assert(!is_space(word[0]));
    lemma_word_len(word, n);
    assert(word.take(n) =~= word);
    assert(word.skip(n) =~= Seq::<char>::empty());
    assert(trimmed_start(Seq::<char>::empty()) =~= Seq::<char>::empty());
    assert(words_of(Seq::<char>::empty()) =~= Seq::<Seq<char>>::empty());
    assert(words_of(word) =~= seq![word]);
}

proof fn lemma_leading_space(gap: Seq<char>, rest: Seq<char>)
    requires
        forall|i: int| 0 <= i < gap.len() ==> is_space(#[trigger] gap[i]),
    ensures
        trimmed_start(gap + rest) == trimmed_start(rest),
        words_of(gap + rest) == words_of(rest),
    decreases gap.len(),
{
    let s = gap + rest;
    if gap.len() == 0 {
        assert(s =~= rest);
    } else {
        assert(s[0] == gap[0]);
        assert(s.drop_first() =~= gap.drop_first() + rest);
        assert forall|i: int| 0 <= i < gap.drop_first().len() implies is_space(
            #[trigger] gap.drop_first()[i],
        ) by {
            assert(is_space(gap[i + 1]));
        }
        lemma_leading_space(gap.drop_first(), rest);
    }
}

/// A numeral has decimal digits only, and a digit after a numeral makes ten times its number and that
/// digit; no numeral starts with a zero but that of zero.
pub proof fn law_decimal(n: nat, d: nat)
    requires
        d < 10,
    ensures
        n > 0 ==> decimal(10 * n + d) == decimal(n).push((48 + d) as char),
        decimal(d) == seq![(48 + d) as char],
        forall|i: int| 0 <= i < decimal(n).len() ==> '0' <= #[trigger] decimal(n)[i] <= '9',
        n > 0 ==> decimal(n)[0] != '0',
    decreases n,
{
    assert((10 * n + d) / 10 == n && (10 * n + d) % 10 == d);
    if n >= 10 {
        law_decimal(n / 10, 0);
        lemma_decimal_len(n / 10);
    }
}

/// Joined texts are joined by the text between them, and one text alone stands as it is.
pub proof fn law_joined(a: Seq<Seq<char>>, b: Seq<Seq<char>>, one: Seq<char>, sep: Seq<char>)
    requires
        a.len() > 0,
        b.len() > 0,
    ensures
        joined(a + b, sep) == joined(a, sep) + sep + joined(b, sep),
        joined(seq![one], sep) == one,
        joined(Seq::empty(), sep).len() == 0,
    decreases b.len(),
{
    assert((a + b).drop_last() =~= a + b.drop_last());
    assert((a + b).last() == b.last());
    if b.len() == 1 {
        assert(a + b.drop_last() =~= a);
    } else {
        law_joined(a, b.drop_last(), one, sep);
        assert(joined(a, sep) + sep + joined(b.drop_last(), sep) + sep + b.last() =~= joined(a, sep)
            + sep + (joined(b.drop_last(), sep) + sep + b.last()));
    }
}

/// Texts line by line are one after the other, each with its line feed.
pub proof fn law_line_by_line(a: Seq<Seq<char>>, b: Seq<Seq<char>>, one: Seq<char>)
    ensures
        line_by_line(a + b) == line_by_line(a) + line_by_line(b),
        line_by_line(seq![one]) == one.push('\n'),
        line_by_line(Seq::empty()).len() == 0,
    decreases b.len(),
{
    reveal_strlit("\n");
    assert(seq![one].drop_last() =~= Seq::<Seq<char>>::empty());
    assert(line_by_line(Seq::<Seq<char>>::empty()) =~= Seq::<char>::empty());
    assert(line_by_line(seq![one]) =~= one.push('\n'));
    if b.len() == 0 {
        assert(a + b =~= a);
        assert(line_by_line(a) + line_by_line(b) =~= line_by_line(a));
    } else {
        law_line_by_line(a, b.drop_last(), one);
        assert((a + b).drop_last() =~= a + b.drop_last());
        assert(line_by_line(a + b) =~= line_by_line(a) + line_by_line(b));
    }
}

/// With its padding a text is as wide as wanted, or as it was where that is wider; padding is spaces.
pub proof fn law_padding(s: Seq<char>, width: nat)
    ensures
        s.len() <= width ==> padding(s, width).len() + s.len() == width,
        s.len() >= width ==> padding(s, width).len() == 0,
        forall|i: int| 0 <= i < padding(s, width).len() ==> #[trigger] padding(s, width)[i] == ' ',
{
}

} // verus!
