//! JSON: values, how they are written, and how what was written is read back.
use crate::text;
use vstd::prelude::*;

verus! {

// ---- strings ----

/// The hexadecimal digit `d` as a character.
pub open spec fn hex_digit(d: nat) -> char {
    if d < 10 {
        (48 + d) as char
    } else {
        (87 + d) as char
    }
}

/// A character as it stands in a JSON string: quotes, backslashes and control characters are
/// escaped.
pub open spec fn escaped_char(c: char) -> Seq<char> {
    if c == '"' || c == '\\' {
        seq!['\\', c]
    } else if c == '\n' {
        seq!['\\', 'n']
    } else if c == '\r' {
        seq!['\\', 'r']
    } else if c == '\t' {
        seq!['\\', 't']
    } else if (c as u32) < 0x20 {
        seq!['\\', 'u', '0', '0', hex_digit((c as nat) / 16), hex_digit((c as nat) % 16)]
    } else {
        seq![c]
    }
}

/// A text as it stands in a JSON string.
pub open spec fn json_escaped(s: Seq<char>) -> Seq<char>
    decreases s.len(),
{
    if s.len() == 0 {
        Seq::empty()
    } else {
        escaped_char(s[0]) + json_escaped(s.drop_first())
    }
}

/// The JSON string for a text.
pub open spec fn json_string(s: Seq<char>) -> Seq<char> {
    "\""@ + json_escaped(s) + "\""@
}

fn push_hex_digit(out: &mut String, d: u8)
    requires
        d < 16,
    ensures
        final(out)@ == old(out)@.push(hex_digit(d as nat)),
{
    if d < 10 {
        out.push((48 + d) as char);
    } else {
        out.push((87 + d) as char);
    }
}

fn push_escaped_char(out: &mut String, c: char)
    ensures
        final(out)@ == old(out)@ + escaped_char(c),
{
    let n: u32 = c as u32;
    if c == '"' || c == '\\' {
        out.push('\\');
        out.push(c);
    } else if c == '\n' {
        out.push('\\');
        out.push('n');
    } else if c == '\r' {
        out.push('\\');
        out.push('r');
    } else if c == '\t' {
        out.push('\\');
        out.push('t');
    } else if n < 0x20 {
        out.push('\\');
        out.push('u');
        out.push('0');
        out.push('0');
        push_hex_digit(out, (n / 16) as u8);
        push_hex_digit(out, (n % 16) as u8);
    } else {
        out.push(c);
    }
    assert(out@ =~= old(out)@ + escaped_char(c));
}

/// Appends the JSON string for a text.
fn push_string(out: &mut String, s: &str)
    ensures
        final(out)@ == old(out)@ + json_string(s@),
{
    let ghost start = out@ + "\""@;
    out.append("\"");
    let v = text::chars_of(s);
    let n: usize = v.len();
    let mut i: usize = 0;
    assert(v@.skip(0) =~= s@);
    while i < n
        invariant
            i <= n,
            n == v@.len(),
            out@ + json_escaped(v@.skip(i as int)) == start + json_escaped(s@),
        decreases n - i,
    {
        let ghost before = out@;
        push_escaped_char(out, v[i]);
        proof {
            let rest = v@.skip(i as int);
            assert(rest.drop_first() =~= v@.skip(i + 1));
            assert(out@ + json_escaped(v@.skip(i + 1)) =~= before + json_escaped(rest));
        }
        i += 1;
    }
    assert(out@ =~= start + json_escaped(s@));
    out.append("\"");
    assert(out@ =~= old(out)@ + json_string(s@));
}

/// The number that a hexadecimal digit stands for.
pub open spec fn hex_value(c: char) -> Option<nat> {
    if '0' <= c <= '9' {
        Some((c as nat - 48) as nat)
    } else if 'a' <= c <= 'f' {
        Some((c as nat - 87) as nat)
    } else if 'A' <= c <= 'F' {
        Some((c as nat - 55) as nat)
    } else {
        None
    }
}

/// The character that four hexadecimal digits stand for, unless it is half of a pair.
pub open spec fn hex_char(a: char, b: char, c: char, d: char) -> Option<char> {
    match (hex_value(a), hex_value(b), hex_value(c), hex_value(d)) {
        (Some(w), Some(x), Some(y), Some(z)) => {
            let n = w * 4096 + x * 256 + y * 16 + z;
            if n < 0xd800 || n >= 0xe000 {
                Some(n as char)
            } else {
                None
            }
        },
        _ => None,
    }
}

/// The character that a JSON string starts with, and how many characters it takes; `None` where a
/// JSON string cannot start so.
#[verifier::opaque]
pub open spec fn read_char(s: Seq<char>) -> Option<(char, nat)> {
    if s.len() == 0 || (s[0] as u32) < 0x20 {
        None
    } else if s[0] != '\\' {
        Some((s[0], 1))
    } else if s.len() < 2 {
        None
    } else if s[1] == '"' || s[1] == '\\' || s[1] == '/' {
        Some((s[1], 2))
    } else if s[1] == 'n' {
        Some(('\n', 2))
    } else if s[1] == 'r' {
        Some(('\r', 2))
    } else if s[1] == 't' {
        Some(('\t', 2))
    } else if s[1] == 'b' {
        Some((8u8 as char, 2))
    } else if s[1] == 'f' {
        Some((12u8 as char, 2))
    } else if s[1] == 'u' && s.len() >= 6 {
        match hex_char(s[2], s[3], s[4], s[5]) {
            Some(c) => Some((c, 6)),
            None => None,
        }
    } else {
        None
    }
}

/// The text of a JSON string whose opening quote was read, and what follows its closing quote.
pub open spec fn read_text(s: Seq<char>) -> Option<(Seq<char>, Seq<char>)>
    decreases s.len(),
{
    if s.len() == 0 {
        None
    } else if s[0] == '"' {
        Some((Seq::empty(), s.skip(1)))
    } else {
        match read_char(s) {
            Some((c, n)) => {
                proof {
                    reveal(read_char);
                }
                match read_text(s.skip(n as int)) {
                    Some((t, rest)) => Some((seq![c] + t, rest)),
                    None => None,
                }
            },
            None => None,
        }
    }
}

proof fn lemma_read_char(c: char, rest: Seq<char>)
    ensures
        read_char(escaped_char(c) + rest) == Some((c, escaped_char(c).len())),
        (escaped_char(c) + rest)[0] != '"',
        escaped_char(c).len() > 0,
{
    reveal(read_char);
    let s = escaped_char(c) + rest;
    if c != '"' && c != '\\' && c != '\n' && c != '\r' && c != '\t' && (c as u32) < 0x20 {
        let n = c as nat;
        assert(n / 16 == 0 || n / 16 == 1);
        assert(s[1] == 'u' && s[2] == '0' && s[3] == '0');
        assert(hex_value('0') == Some(0nat));
        assert(hex_value(s[4]) == Some(n / 16));
        assert(hex_value(s[5]) == Some(n % 16));
    }
}

/// One step of reading a text.
proof fn lemma_text_step(head: Seq<char>, tail: Seq<char>, c: char, t: Seq<char>, rest: Seq<char>)
    requires
        head.len() > 0,
        (head + tail)[0] != '"',
        read_char(head + tail) == Some((c, head.len())),
        read_text(tail) == Some((t, rest)),
    ensures
        read_text(head + tail) == Some((seq![c] + t, rest)),
{
    assert((head + tail).skip(head.len() as int) =~= tail);
}

/// A text that was written as a JSON string is read back, and nothing beyond it is touched.
pub proof fn law_text_reads_back(t: Seq<char>, rest: Seq<char>)
    ensures
        read_text(json_escaped(t) + "\""@ + rest) == Some((t, rest)),
    decreases t.len(),
{
    let s = json_escaped(t) + "\""@ + rest;
    if t.len() == 0 {
        reveal_strlit("\"");
        assert(s[0] == '"');
        assert(s.skip(1) =~= rest);
        assert(t =~= Seq::<char>::empty());
    } else {
        let head = escaped_char(t[0]);
        let more = json_escaped(t.drop_first());
        let tail = more + "\""@ + rest;
        law_text_reads_back(t.drop_first(), rest);
        lemma_read_char(t[0], tail);
        lemma_text_step(head, tail, t[0], t.drop_first(), rest);
        lemma_regroup(head, more, "\""@, rest);
        assert(seq![t[0]] + t.drop_first() =~= t);
    }
}

proof fn lemma_regroup(a: Seq<char>, b: Seq<char>, c: Seq<char>, d: Seq<char>)
    ensures
        (a + b) + c + d == a + (b + c + d),
{
    assert((a + b) + c + d =~= a + (b + c + d));
}

// ---- numbers ----

/// Whether a text consists of decimal digits.
pub open spec fn all_digits(t: Seq<char>) -> bool {
    forall|i: int| 0 <= i < t.len() ==> '0' <= #[trigger] t[i] <= '9'
}

/// Whether a text is a JSON number without an exponent: perhaps a minus, digits without a needless
/// zero before them, and perhaps a point with digits after it.
pub open spec fn is_number(t: Seq<char>) -> bool {
    let d = if t.len() > 0 && t[0] == '-' {
        t.skip(1)
    } else {
        t
    };
    let k = text::first_index(d, '.') as int;
    &&& 0 < k <= d.len()
    &&& all_digits(d.take(k))
    &&& k > 1 ==> d[0] != '0'
    &&& k < d.len() ==> k + 1 < d.len() && all_digits(d.skip(k + 1))
}

/// Whether a text is a JSON number without an exponent.
pub fn check_number(t: &str) -> (r: bool)
    ensures
        r == is_number(t@),
{
    let v = text::chars_of(t);
    let n: usize = v.len();
    let start: usize = if n > 0 && v[0] == '-' {
        1
    } else {
        0
    };
    let ghost d = v@.skip(start as int);
    assert(v@.skip(0) =~= v@);
    let k: usize = text::find_from(&v, start, '.');
    proof {
        text::lemma_first_index_bound(d, '.');
        assert(d.take(k - start) =~= v@.subrange(start as int, k as int));
        if k < n {
            assert(d.skip(k - start + 1) =~= v@.subrange(k + 1, n as int));
        }
        if k > start {
            assert(d[0] == v@[start as int]);
        }
    }
    if k == start || !digits_between(&v, start, k) {
        return false;
    }
    if k - start > 1 && v[start] == '0' {
        return false;
    }
    k == n || (k + 1 < n && digits_between(&v, k + 1, n))
}

fn digits_between(v: &Vec<char>, from: usize, to: usize) -> (r: bool)
    requires
        from <= to <= v@.len(),
    ensures
        r == all_digits(v@.subrange(from as int, to as int)),
{
    let ghost part = v@.subrange(from as int, to as int);
    let mut i: usize = from;
    while i < to
        invariant
            from <= i <= to <= v@.len(),
            part == v@.subrange(from as int, to as int),
            forall|k: int| 0 <= k < i - from ==> '0' <= #[trigger] part[k] <= '9',
        decreases to - i,
    {
        if v[i] < '0' || v[i] > '9' {
            assert(part[i - from] == v@[i as int]);
            return false;
        }
        i += 1;
    }
    true
}

/// Whether a character may stand in a number.
pub open spec fn is_number_char(c: char) -> bool {
    '0' <= c <= '9' || c == '-' || c == '.'
}

/// How many characters that may stand in a number a text starts with.
pub open spec fn number_len(s: Seq<char>) -> nat
    decreases s.len(),
{
    if s.len() == 0 || !is_number_char(s[0]) {
        0
    } else {
        1 + number_len(s.drop_first())
    }
}

proof fn lemma_number_len(t: Seq<char>, rest: Seq<char>)
    requires
        forall|i: int| 0 <= i < t.len() ==> is_number_char(#[trigger] t[i]),
        rest.len() > 0 ==> !is_number_char(rest[0]),
    ensures
        number_len(t + rest) == t.len(),
    decreases t.len(),
{
    if t.len() == 0 {
        assert(t + rest =~= rest);
    } else {
        assert((t + rest).drop_first() =~= t.drop_first() + rest);
        lemma_number_len(t.drop_first(), rest);
    }
}

proof fn lemma_number_chars(t: Seq<char>)
    requires
        is_number(t),
    ensures
        t.len() > 0,
        forall|i: int| 0 <= i < t.len() ==> is_number_char(#[trigger] t[i]),
{
    let minus: int = if t.len() > 0 && t[0] == '-' {
        1
    } else {
        0
    };
    let d = t.skip(minus);
    assert(t.skip(0) =~= t);
    let k = text::first_index(d, '.') as int;
    text::lemma_first_index_bound(d, '.');
    assert forall|i: int| 0 <= i < t.len() implies is_number_char(#[trigger] t[i]) by {
        let j = i - minus;
        if j >= 0 {
            assert(t[i] == d[j]);
            if j < k {
                assert(d.take(k)[j] == d[j]);
            } else if j > k {
                assert(d.skip(k + 1)[j - k - 1] == d[j]);
            } else {
                lemma_point(d);
            }
        }
    }
}

proof fn lemma_point(d: Seq<char>)
    requires
        text::first_index(d, '.') < d.len(),
    ensures
        d[text::first_index(d, '.') as int] == '.',
    decreases d.len(),
{
    if d[0] != '.' {
        lemma_point(d.drop_first());
    }
}

/// Every numeral is a JSON number.
pub proof fn law_numerals_are_numbers(n: nat)
    ensures
        is_number(text::decimal(n)),
{
    lemma_numeral(n);
    let t = text::decimal(n);
    assert forall|i: int| 0 <= i < t.len() implies t[i] != '.' by {
        assert('0' <= t[i] <= '9');
    }
    text::lemma_first_index(t, '.', t.len() as int);
    assert(t.take(t.len() as int) =~= t);
}

proof fn lemma_numeral(n: nat)
    ensures
        text::decimal(n).len() > 0,
        all_digits(text::decimal(n)),
        n > 0 ==> text::decimal(n)[0] != '0',
        n < 10 ==> text::decimal(n).len() == 1,
    decreases n,
{
    if n >= 10 {
        lemma_numeral(n / 10);
    }
}

// ---- values ----

/// A JSON value; the members of an object are in the order in which they are written.
pub enum Json {
    Null,
    Number(Seq<char>),
    Text(Seq<char>),
    List(Seq<Json>),
    Object(Seq<(Seq<char>, Json)>),
}

/// Whether every number in a value is one.
pub open spec fn is_proper(v: Json) -> bool
    decreases v,
{
    match v {
        Json::Null => true,
        Json::Number(t) => is_number(t),
        Json::Text(_) => true,
        Json::List(items) => forall|i: int| 0 <= i < items.len() ==> is_proper(#[trigger] items[i]),
        Json::Object(members) => forall|i: int|
            0 <= i < members.len() ==> is_proper((#[trigger] members[i]).1),
    }
}

/// A value as it is written.
pub open spec fn json_text(v: Json) -> Seq<char>
    decreases v,
{
    match v {
        Json::Null => "null"@,
        Json::Number(t) => t,
        Json::Text(t) => json_string(t),
        Json::List(items) => "["@ + items_text(items) + "]"@,
        Json::Object(members) => "{"@ + members_text(members) + "}"@,
    }
}

/// The items of a list as they are written.
pub open spec fn items_text(items: Seq<Json>) -> Seq<char>
    decreases items,
{
    if items.len() == 0 {
        Seq::empty()
    } else if items.len() == 1 {
        json_text(items[0])
    } else {
        json_text(items[0]) + ","@ + items_text(items.drop_first())
    }
}

/// The members of an object as they are written.
pub open spec fn members_text(members: Seq<(Seq<char>, Json)>) -> Seq<char>
    decreases members,
{
    if members.len() == 0 {
        Seq::empty()
    } else if members.len() == 1 {
        json_string(members[0].0) + ":"@ + json_text(members[0].1)
    } else {
        json_string(members[0].0) + ":"@ + json_text(members[0].1) + ","@ + members_text(
            members.drop_first(),
        )
    }
}

// ---- writing ----

proof fn lemma_items_push(items: Seq<Json>, v: Json)
    ensures
        items.len() == 0 ==> items_text(items.push(v)) == json_text(v),
        items.len() > 0 ==> items_text(items.push(v)) == items_text(items) + ","@ + json_text(v),
    decreases items.len(),
{
    let all = items.push(v);
    if items.len() > 0 {
        lemma_items_push(items.drop_first(), v);
        assert(all.drop_first() =~= items.drop_first().push(v));
        assert(all[0] == items[0]);
        assert(items_text(all) =~= items_text(items) + ","@ + json_text(v));
    }
}

proof fn lemma_members_push(members: Seq<(Seq<char>, Json)>, key: Seq<char>, v: Json)
    ensures
        ({
            let member = json_string(key) + ":"@ + json_text(v);
            let all = members.push((key, v));
            &&& members.len() == 0 ==> members_text(all) == member
            &&& members.len() > 0 ==> members_text(all) == members_text(members) + ","@ + member
        }),
    decreases members.len(),
{
    let member = json_string(key) + ":"@ + json_text(v);
    let all = members.push((key, v));
    if members.len() > 0 {
        lemma_members_push(members.drop_first(), key, v);
        assert(all.drop_first() =~= members.drop_first().push((key, v)));
        assert(all[0] == members[0]);
        assert(members_text(all) =~= members_text(members) + ","@ + member);
    }
}

/// A list that is being written.
pub struct ListWriter {
    written: String,
    empty: bool,
    items: Ghost<Seq<Json>>,
}

impl ListWriter {
    /// The items so far.
    pub closed spec fn view(self) -> Seq<Json> {
        self.items@
    }

    /// What ties the text to the items.
    pub closed spec fn well_formed(self) -> bool {
        &&& self.written@ == "["@ + items_text(self.items@)
        &&& self.empty == (self.items@.len() == 0)
    }

    /// An empty list.
    pub fn new() -> (r: Self)
        ensures
            r.well_formed(),
            r@ == Seq::<Json>::empty(),
    {
        let r = ListWriter { written: "[".to_owned(), empty: true, items: Ghost(Seq::empty()) };
        assert(r.written@ =~= "["@ + items_text(r.items@));
        r
    }

    /// Adds an item, given as it is written.
    pub fn push(&mut self, item: &str, Ghost(v): Ghost<Json>)
        requires
            old(self).well_formed(),
            item@ == json_text(v),
        ensures
            final(self).well_formed(),
            final(self)@ == old(self)@.push(v),
    {
        proof {
            lemma_items_push(self.items@, v);
        }
        let ghost before = self.items@;
        if !self.empty {
            self.written.append(",");
        }
        self.written.append(item);
        self.empty = false;
        self.items = Ghost(before.push(v));
        assert(self.written@ =~= "["@ + items_text(self.items@));
    }

    /// The list as it is written.
    pub fn finish(self) -> (r: String)
        requires
            self.well_formed(),
        ensures
            r@ == json_text(Json::List(self@)),
    {
        let mut out = self.written;
        out.append("]");
        out
    }
}

/// An object that is being written.
pub struct ObjectWriter {
    written: String,
    empty: bool,
    members: Ghost<Seq<(Seq<char>, Json)>>,
}

impl ObjectWriter {
    /// The members so far.
    pub closed spec fn view(self) -> Seq<(Seq<char>, Json)> {
        self.members@
    }

    /// What ties the text to the members.
    pub closed spec fn well_formed(self) -> bool {
        &&& self.written@ == "{"@ + members_text(self.members@)
        &&& self.empty == (self.members@.len() == 0)
    }

    /// An empty object.
    pub fn new() -> (r: Self)
        ensures
            r.well_formed(),
            r@ == Seq::<(Seq<char>, Json)>::empty(),
    {
        let r = ObjectWriter { written: "{".to_owned(), empty: true, members: Ghost(Seq::empty()) };
        assert(r.written@ =~= "{"@ + members_text(r.members@));
        r
    }

    /// Adds a member, its value given as it is written.
    pub fn push(&mut self, key: &str, value: &str, Ghost(v): Ghost<Json>)
        requires
            old(self).well_formed(),
            value@ == json_text(v),
        ensures
            final(self).well_formed(),
            final(self)@ == old(self)@.push((key@, v)),
    {
        proof {
            lemma_members_push(self.members@, key@, v);
        }
        let ghost before = self.members@;
        if !self.empty {
            self.written.append(",");
        }
        push_string(&mut self.written, key);
        self.written.append(":");
        self.written.append(value);
        self.empty = false;
        self.members = Ghost(before.push((key@, v)));
        assert(self.written@ =~= "{"@ + members_text(self.members@));
    }

    /// Adds a member whose value is a text.
    pub fn push_text(&mut self, key: &str, value: &str)
        requires
            old(self).well_formed(),
        ensures
            final(self).well_formed(),
            final(self)@ == old(self)@.push((key@, Json::Text(value@))),
    {
        let quoted = quote(value);
        self.push(key, quoted.as_str(), Ghost(Json::Text(value@)));
    }

    /// Adds a member whose value is a whole number.
    pub fn push_number(&mut self, key: &str, value: u64)
        requires
            old(self).well_formed(),
        ensures
            final(self).well_formed(),
            final(self)@ == old(self)@.push((key@, Json::Number(text::decimal(value as nat)))),
    {
        let numeral = text::to_decimal(value);
        self.push(key, numeral.as_str(), Ghost(Json::Number(text::decimal(value as nat))));
    }

    /// The object as it is written.
    pub fn finish(self) -> (r: String)
        requires
            self.well_formed(),
        ensures
            r@ == json_text(Json::Object(self@)),
    {
        let mut out = self.written;
        out.append("}");
        out
    }
}

/// The JSON string for a text.
pub fn quote(s: &str) -> (r: String)
    ensures
        r@ == json_string(s@),
{
    let mut out: String = String::new();
    push_string(&mut out, s);
    assert(out@ =~= json_string(s@));
    out
}

// ---- reading ----

/// The value that a text without white space between values starts with, and what follows it.
pub open spec fn read_value(s: Seq<char>) -> Option<(Json, Seq<char>)>
    decreases s.len(), 0nat,
{
    if s.len() == 0 {
        None
    } else if s[0] == '"' {
        match read_text(s.skip(1)) {
            Some((t, rest)) => Some((Json::Text(t), rest)),
            None => None,
        }
    } else if s[0] == '[' {
        if s.len() >= 2 && s[1] == ']' {
            Some((Json::List(Seq::empty()), s.skip(2)))
        } else {
            match read_items(s.skip(1)) {
                Some((items, rest)) => Some((Json::List(items), rest)),
                None => None,
            }
        }
    } else if s[0] == '{' {
        if s.len() >= 2 && s[1] == '}' {
            Some((Json::Object(Seq::empty()), s.skip(2)))
        } else {
            match read_members(s.skip(1)) {
                Some((members, rest)) => Some((Json::Object(members), rest)),
                None => None,
            }
        }
    } else if s.len() >= 4 && s.take(4) == "null"@ {
        Some((Json::Null, s.skip(4)))
    } else {
        let n = number_len(s) as int;
        if is_number(s.take(n)) {
            Some((Json::Number(s.take(n)), s.skip(n)))
        } else {
            None
        }
    }
}

/// The values up to the end of a list that is not empty, and what follows it.
pub open spec fn read_items(s: Seq<char>) -> Option<(Seq<Json>, Seq<char>)>
    decreases s.len(), 1nat,
{
    match read_value(s) {
        Some((v, rest)) => if rest.len() == 0 || rest.len() >= s.len() {
            None
        } else if rest[0] == ']' {
            Some((seq![v], rest.skip(1)))
        } else if rest[0] == ',' {
            match read_items(rest.skip(1)) {
                Some((items, end)) => Some((seq![v] + items, end)),
                None => None,
            }
        } else {
            None
        },
        None => None,
    }
}

/// The members up to the end of an object that is not empty, and what follows it.
pub open spec fn read_members(s: Seq<char>) -> Option<(Seq<(Seq<char>, Json)>, Seq<char>)>
    decreases s.len(), 1nat,
{
    if s.len() == 0 || s[0] != '"' {
        None
    } else {
        match read_text(s.skip(1)) {
            Some((key, after)) => if after.len() == 0 || after.len() >= s.len() || after[0] != ':' {
                None
            } else {
                match read_value(after.skip(1)) {
                    Some((v, rest)) => if rest.len() == 0 || rest.len() >= s.len() {
                        None
                    } else if rest[0] == '}' {
                        Some((seq![(key, v)], rest.skip(1)))
                    } else if rest[0] == ',' {
                        match read_members(rest.skip(1)) {
                            Some((members, end)) => Some((seq![(key, v)] + members, end)),
                            None => None,
                        }
                    } else {
                        None
                    },
                    None => None,
                }
            },
            None => None,
        }
    }
}

/// Whether a text may follow a value: it is empty, or ends or continues a list or an object.
pub open spec fn may_follow(rest: Seq<char>) -> bool {
    rest.len() == 0 || rest[0] == ',' || rest[0] == ']' || rest[0] == '}'
}

proof fn lemma_first_char(v: Json)
    requires
        is_proper(v),
    ensures
        json_text(v).len() > 0,
        json_text(v)[0] != ']',
{
    reveal_strlit("\"");
    reveal_strlit("[");
    reveal_strlit("{");
    reveal_strlit("null");
    match v {
        Json::Number(t) => {
            lemma_number_chars(t);
        },
        _ => {},
    }
}

proof fn lemma_null_reads_back(rest: Seq<char>)
    ensures
        read_value("null"@ + rest) == Some((Json::Null, rest)),
{
    reveal_strlit("null");
    let s = "null"@ + rest;
    assert(s.take(4) =~= "null"@);
    assert(s.skip(4) =~= rest);
}

proof fn lemma_number_reads_back(t: Seq<char>, rest: Seq<char>)
    requires
        is_number(t),
        may_follow(rest),
    ensures
        read_value(t + rest) == Some((Json::Number(t), rest)),
{
    let s = t + rest;
    lemma_number_chars(t);
    lemma_number_len(t, rest);
    assert(s.take(t.len() as int) =~= t);
    assert(s.skip(t.len() as int) =~= rest);
    assert(is_number_char(s[0]));
    assert(!(s.len() >= 4 && s.take(4) == "null"@)) by {
        reveal_strlit("null");
        if s.len() >= 4 && s.take(4) == "null"@ {
            assert(s.take(4)[0] == s[0]);
        }
    }
}

proof fn lemma_string_reads_back(t: Seq<char>, rest: Seq<char>)
    ensures
        read_value(json_string(t) + rest) == Some((Json::Text(t), rest)),
{
    reveal_strlit("\"");
    let s = json_string(t) + rest;
    law_text_reads_back(t, rest);
    assert(s[0] == '"');
    assert(s.skip(1) =~= json_escaped(t) + "\""@ + rest);
}

proof fn lemma_list_opens(inner: Seq<char>, rest: Seq<char>)
    requires
        inner.len() > 0 ==> inner[0] != ']',
    ensures
        ({
            let s = "["@ + inner + "]"@ + rest;
            &&& s.len() >= 2
            &&& s[0] == '['
            &&& s[1] == ']' <==> inner.len() == 0
            &&& inner.len() == 0 ==> s.skip(2) == rest
            &&& s.skip(1) == inner + "]"@ + rest
        }),
{
    reveal_strlit("[");
    reveal_strlit("]");
    let s = "["@ + inner + "]"@ + rest;
    assert(s.skip(1) =~= inner + "]"@ + rest);
    if inner.len() == 0 {
        assert(s.skip(2) =~= rest);
    } else {
        assert(s[1] == inner[0]);
    }
}

proof fn lemma_object_opens(inner: Seq<char>, rest: Seq<char>)
    requires
        inner.len() > 0 ==> inner[0] == '"',
    ensures
        ({
            let s = "{"@ + inner + "}"@ + rest;
            &&& s.len() >= 2
            &&& s[0] == '{'
            &&& s[1] == '}' <==> inner.len() == 0
            &&& inner.len() == 0 ==> s.skip(2) == rest
            &&& s.skip(1) == inner + "}"@ + rest
        }),
{
    reveal_strlit("{");
    reveal_strlit("}");
    let s = "{"@ + inner + "}"@ + rest;
    assert(s.skip(1) =~= inner + "}"@ + rest);
    if inner.len() == 0 {
        assert(s.skip(2) =~= rest);
    } else {
        assert(s[1] == inner[0]);
    }
}

#[verifier::spinoff_prover]
proof fn lemma_value_reads_back(v: Json, rest: Seq<char>)
    requires
        is_proper(v),
        may_follow(rest),
    ensures
        read_value(json_text(v) + rest) == Some((v, rest)),
    decreases v,
{
    match v {
        Json::Null => {
            lemma_null_reads_back(rest);
        },
        Json::Number(t) => {
            lemma_number_reads_back(t, rest);
        },
        Json::Text(t) => {
            lemma_string_reads_back(t, rest);
        },
        Json::List(items) => {
            let inner = items_text(items);
            if items.len() == 0 {
                assert(items =~= Seq::<Json>::empty());
            } else {
                lemma_items_read_back(items, rest);
                lemma_first_char(items[0]);
                assert(inner.len() > 0 && inner[0] == json_text(items[0])[0]);
            }
            lemma_list_opens(inner, rest);
        },
        Json::Object(members) => {
            let inner = members_text(members);
            if members.len() == 0 {
                assert(members =~= Seq::<(Seq<char>, Json)>::empty());
            } else {
                lemma_members_read_back(members, rest);
            }
            lemma_object_opens(inner, rest);
        },
    }
}

/// What follows the first item of a list.
spec fn after_first_item(items: Seq<Json>, rest: Seq<char>) -> Seq<char> {
    if items.len() == 1 {
        "]"@ + rest
    } else {
        ","@ + (items_text(items.drop_first()) + "]"@ + rest)
    }
}

proof fn lemma_items_layout(items: Seq<Json>, rest: Seq<char>)
    requires
        items.len() > 0,
    ensures
        items_text(items) + "]"@ + rest == json_text(items[0]) + after_first_item(items, rest),
{
    let first = json_text(items[0]);
    if items.len() > 1 {
        let more = items_text(items.drop_first());
        assert(first + ","@ + more + "]"@ + rest =~= first + (","@ + (more + "]"@ + rest)));
    } else {
        assert(first + "]"@ + rest =~= first + ("]"@ + rest));
    }
}

proof fn lemma_after_first_item(items: Seq<Json>, rest: Seq<char>)
    requires
        items.len() > 0,
    ensures
        ({
            let end = after_first_item(items, rest);
            &&& may_follow(end)
            &&& end.len() > 0
            &&& items.len() == 1 ==> end[0] == ']' && end.skip(1) == rest
            &&& items.len() > 1 ==> end[0] == ',' && end.skip(1) == items_text(items.drop_first())
                + "]"@ + rest
        }),
{
    reveal_strlit("]");
    reveal_strlit(",");
    let end = after_first_item(items, rest);
    if items.len() == 1 {
        assert(end.skip(1) =~= rest);
    } else {
        assert(end.skip(1) =~= items_text(items.drop_first()) + "]"@ + rest);
    }
}

/// One step of reading items.
#[verifier::spinoff_prover]
proof fn lemma_item_step(s: Seq<char>, v: Json, end: Seq<char>)
    requires
        read_value(s) == Some((v, end)),
        0 < end.len() < s.len(),
    ensures
        end[0] == ']' ==> read_items(s) == Some((seq![v], end.skip(1))),
        end[0] == ',' ==> match read_items(end.skip(1)) {
            Some((more, rest)) => read_items(s) == Some((seq![v] + more, rest)),
            None => read_items(s) is None,
        },
{
}

#[verifier::spinoff_prover]
proof fn lemma_items_read_back(items: Seq<Json>, rest: Seq<char>)
    requires
        items.len() > 0,
        forall|i: int| 0 <= i < items.len() ==> is_proper(#[trigger] items[i]),
    ensures
        read_items(items_text(items) + "]"@ + rest) == Some((items, rest)),
    decreases items,
{
    let v = items[0];
    let end = after_first_item(items, rest);
    lemma_items_layout(items, rest);
    lemma_after_first_item(items, rest);
    lemma_value_reads_back(v, end);
    lemma_first_char(v);
    lemma_item_step(json_text(v) + end, v, end);
    if items.len() == 1 {
        assert(seq![v] =~= items);
    } else {
        let more = items.drop_first();
        assert forall|i: int| 0 <= i < more.len() implies is_proper(#[trigger] more[i]) by {
            assert(more[i] == items[i + 1]);
        }
        lemma_items_read_back(more, rest);
        assert(seq![v] + more =~= items);
    }
}

/// The key of a member and the colon after it are read.
proof fn lemma_key_reads_back(key: Seq<char>, tail: Seq<char>)
    ensures
        ({
            let s = json_string(key) + ":"@ + tail;
            &&& s.len() > 0
            &&& s[0] == '"'
            &&& s.len() > tail.len() + 1
            &&& read_text(s.skip(1)) == Some((key, ":"@ + tail))
        }),
        (":"@ + tail).len() == tail.len() + 1,
        (":"@ + tail)[0] == ':',
        (":"@ + tail).skip(1) == tail,
{
    reveal_strlit("\"");
    reveal_strlit(":");
    let s = json_string(key) + ":"@ + tail;
    let after = ":"@ + tail;
    law_text_reads_back(key, after);
    assert(s.skip(1) =~= json_escaped(key) + "\""@ + after);
    assert(after.skip(1) =~= tail);
}

/// What follows the first member of an object.
spec fn after_first_member(members: Seq<(Seq<char>, Json)>, rest: Seq<char>) -> Seq<char> {
    if members.len() == 1 {
        "}"@ + rest
    } else {
        ","@ + (members_text(members.drop_first()) + "}"@ + rest)
    }
}

#[verifier::spinoff_prover]
proof fn lemma_members_layout(members: Seq<(Seq<char>, Json)>, rest: Seq<char>)
    requires
        members.len() > 0,
    ensures
        members_text(members).len() > 0,
        members_text(members)[0] == '"',
        members_text(members) + "}"@ + rest == json_string(members[0].0) + ":"@ + (json_text(
            members[0].1,
        ) + after_first_member(members, rest)),
{
    reveal_strlit("\"");
    let key = members[0].0;
    let v = members[0].1;
    if members.len() > 1 {
        let more = members_text(members.drop_first());
        assert(members_text(members) + "}"@ + rest =~= json_string(key) + ":"@ + (json_text(v) + (
        ","@ + (more + "}"@ + rest))));
    } else {
        assert(members_text(members) + "}"@ + rest =~= json_string(key) + ":"@ + (json_text(v) + (
        "}"@ + rest)));
    }
}

proof fn lemma_after_first_member(members: Seq<(Seq<char>, Json)>, rest: Seq<char>)
    requires
        members.len() > 0,
    ensures
        ({
            let end = after_first_member(members, rest);
            &&& may_follow(end)
            &&& end.len() > 0
            &&& members.len() == 1 ==> end[0] == '}' && end.skip(1) == rest
            &&& members.len() > 1 ==> end[0] == ',' && end.skip(1) == members_text(
                members.drop_first(),
            ) + "}"@ + rest
        }),
{
    reveal_strlit("}");
    reveal_strlit(",");
    let end = after_first_member(members, rest);
    if members.len() == 1 {
        assert(end.skip(1) =~= rest);
    } else {
        assert(end.skip(1) =~= members_text(members.drop_first()) + "}"@ + rest);
    }
}

/// One step of reading members.
#[verifier::spinoff_prover]
proof fn lemma_member_step(
    s: Seq<char>,
    key: Seq<char>,
    after: Seq<char>,
    v: Json,
    end: Seq<char>,
)
    requires
        s.len() > 0,
        s[0] == '"',
        read_text(s.skip(1)) == Some((key, after)),
        0 < after.len() < s.len(),
        after[0] == ':',
        read_value(after.skip(1)) == Some((v, end)),
        0 < end.len() < s.len(),
    ensures
        end[0] == '}' ==> read_members(s) == Some((seq![(key, v)], end.skip(1))),
        end[0] == ',' ==> match read_members(end.skip(1)) {
            Some((more, rest)) => read_members(s) == Some((seq![(key, v)] + more, rest)),
            None => read_members(s) is None,
        },
{
}

#[verifier::spinoff_prover]
proof fn lemma_members_read_back(members: Seq<(Seq<char>, Json)>, rest: Seq<char>)
    requires
        members.len() > 0,
        forall|i: int| 0 <= i < members.len() ==> is_proper((#[trigger] members[i]).1),
    ensures
        read_members(members_text(members) + "}"@ + rest) == Some((members, rest)),
        members_text(members).len() > 0,
        members_text(members)[0] == '"',
    decreases members,
{
    let key = members[0].0;
    let v = members[0].1;
    let s = members_text(members) + "}"@ + rest;
    let end = after_first_member(members, rest);
    lemma_members_layout(members, rest);
    lemma_after_first_member(members, rest);
    lemma_key_reads_back(key, json_text(v) + end);
    lemma_value_reads_back(v, end);
    lemma_first_char(v);
    let after = ":"@ + (json_text(v) + end);
    lemma_member_step(s, key, after, v, end);
    if members.len() == 1 {
        assert(seq![(key, v)] =~= members);
    } else {
        let more = members.drop_first();
        assert forall|i: int| 0 <= i < more.len() implies is_proper((#[trigger] more[i]).1) by {
            assert(more[i] == members[i + 1]);
        }
        lemma_members_read_back(more, rest);
        assert(seq![(key, v)] + more =~= members);
    }
}

/// A value that was written is read back, and nothing is left over.
pub proof fn law_value_reads_back(v: Json)
    requires
        is_proper(v),
    ensures
        read_value(json_text(v)) == Some((v, Seq::<char>::empty())),
{
    lemma_value_reads_back(v, Seq::empty());
    assert(json_text(v) + Seq::<char>::empty() =~= json_text(v));
}

// ---- what is written ----

/// A text stands in a JSON string character by character. A quote and a backslash get a backslash before
/// them, a line feed, a carriage return and a tabulator are written with a letter, every other control
/// character with its number in four hexadecimal digits, and any other character stands as it is.
pub proof fn law_escaping(a: Seq<char>, b: Seq<char>, c: char)
    ensures
        json_escaped(a + b) == json_escaped(a) + json_escaped(b),
        json_escaped(Seq::empty()).len() == 0,
        ({
            let e = json_escaped(seq![c]);
            &&& c >= ' ' && c != '"' && c != '\\' ==> e == seq![c]
            &&& c == '"' || c == '\\' ==> e == seq!['\\', c]
            &&& c == '\n' ==> e == seq!['\\', 'n']
            &&& c == '\r' ==> e == seq!['\\', 'r']
            &&& c == '\t' ==> e == seq!['\\', 't']
            &&& c < ' ' && c != '\n' && c != '\r' && c != '\t' ==> e == seq!['\\', 'u', '0', '0']
                + seq![
                if (c as int) < 16 {
                    '0'
                } else {
                    '1'
                },
                "0123456789abcdef"@[c as int % 16],
            ]
        }),
    decreases a.len(),
{
    reveal_strlit("0123456789abcdef");
    let one = seq![c];
    assert(one.drop_first() =~= Seq::<char>::empty());
    assert(json_escaped(Seq::<char>::empty()) =~= Seq::<char>::empty());
    assert(json_escaped(one) =~= escaped_char(c));
    if c < ' ' && c != '\n' && c != '\r' && c != '\t' {
        let n = c as nat;
        assert(n / 16 == if n < 16 {
            0nat
        } else {
            1nat
        });
        assert(hex_digit(n % 16) == "0123456789abcdef"@[c as int % 16]);
        assert(json_escaped(one) =~= seq!['\\', 'u', '0', '0'] + seq![
            if n < 16 {
                '0'
            } else {
                '1'
            },
            "0123456789abcdef"@[c as int % 16],
        ]);
    }
    if a.len() == 0 {
        assert(a + b =~= b);
        assert(json_escaped(a) + json_escaped(b) =~= json_escaped(b));
    } else {
        law_escaping(a.drop_first(), b, c);
        assert((a + b).drop_first() =~= a.drop_first() + b);
        assert(json_escaped(a + b) =~= json_escaped(a) + json_escaped(b));
    }
}

/// A value is written without any white space: a text between quotes, the items of a list between
/// brackets and the members of an object between braces, each with commas between them, and a member as
/// its key, a colon and its value.
pub proof fn law_layout(
    number: Seq<char>,
    t: Seq<char>,
    items: Seq<Json>,
    members: Seq<(Seq<char>, Json)>,
)
    ensures
        json_text(Json::Null) == "null"@,
        json_text(Json::Number(number)) == number,
        json_text(Json::Text(t)) == seq!['"'] + json_escaped(t) + seq!['"'],
        json_text(Json::List(items)) == "["@ + text::joined(
            items.map_values(|v: Json| json_text(v)),
            ","@,
        ) + "]"@,
        json_text(Json::Object(members)) == "{"@ + text::joined(
            members.map_values(
                |m: (Seq<char>, Json)| json_text(Json::Text(m.0)) + ":"@ + json_text(m.1),
            ),
            ","@,
        ) + "}"@,
{
    reveal_strlit("\"");
    assert("\""@ =~= seq!['"']);
    lemma_items_joined(items);
    lemma_members_joined(members);
}

proof fn lemma_items_joined(items: Seq<Json>)
    ensures
        items_text(items) == text::joined(items.map_values(|v: Json| json_text(v)), ","@),
    decreases items.len(),
{
    let parts = items.map_values(|v: Json| json_text(v));
    if items.len() > 1 {
        let rest = items.drop_first();
        let tail = rest.map_values(|v: Json| json_text(v));
        lemma_items_joined(rest);
        let head = seq![json_text(items[0])];
        assert(parts =~= head + tail);
        text::law_joined(head, tail, json_text(items[0]), ","@);
    }
}

proof fn lemma_members_joined(members: Seq<(Seq<char>, Json)>)
    ensures
        members_text(members) == text::joined(
            members.map_values(
                |m: (Seq<char>, Json)| json_text(Json::Text(m.0)) + ":"@ + json_text(m.1),
            ),
            ","@,
        ),
    decreases members.len(),
{
    let part = |m: (Seq<char>, Json)| json_text(Json::Text(m.0)) + ":"@ + json_text(m.1);
    let parts = members.map_values(part);
    if members.len() > 1 {
        let rest = members.drop_first();
        let tail = rest.map_values(part);
        lemma_members_joined(rest);
        let head = seq![part(members[0])];
        assert(parts =~= head + tail);
        text::law_joined(head, tail, part(members[0]), ","@);
        assert(members_text(members) =~= part(members[0]) + ","@ + members_text(rest));
    }
}

/// Whether a text is a row of digits without a needless zero before them.
pub open spec fn is_whole(t: Seq<char>) -> bool {
    t.len() > 0 && all_digits(t) && (t.len() > 1 ==> t[0] != '0')
}

/// Digits without a needless zero before them are a number, with or without a point and further digits
/// after them, and with or without a minus before them.
pub proof fn law_numbers(whole: Seq<char>, part: Seq<char>)
    requires
        is_whole(whole),
        part.len() > 0,
        all_digits(part),
    ensures
        is_number(whole),
        is_number(whole + seq!['.'] + part),
        is_number(seq!['-'] + whole),
        is_number(seq!['-'] + (whole + seq!['.'] + part)),
{
    let n = whole.len() as int;
    assert forall|i: int| 0 <= i < n implies whole[i] != '.' && whole[i] != '-' by {
        assert('0' <= whole[i] <= '9');
    }
    text::lemma_first_index(whole, '.', n);
    assert(whole.take(n) =~= whole);
    let d = whole + seq!['.'] + part;
    assert(d[n] == '.');
    assert(d[0] == whole[0]);
    assert forall|i: int| 0 <= i < n implies d[i] != '.' by {
        assert(d[i] == whole[i]);
    }
    text::lemma_first_index(d, '.', n);
    assert(d.take(n) =~= whole);
    assert(d.skip(n + 1) =~= part);
    assert((seq!['-'] + whole).skip(1) =~= whole);
    assert((seq!['-'] + d).skip(1) =~= d);
}

/// There are no other numbers.
pub proof fn law_no_other_numbers(t: Seq<char>)
    requires
        is_number(t),
    ensures
        exists|whole: Seq<char>, part: Seq<char>|
            {
                &&& #[trigger] is_whole(whole)
                &&& #[trigger] all_digits(part)
                &&& {
                    ||| t == whole
                    ||| t == seq!['-'] + whole
                    ||| part.len() > 0 && t == whole + seq!['.'] + part
                    ||| part.len() > 0 && t == seq!['-'] + (whole + seq!['.'] + part)
                }
            },
{
    let minus = t.len() > 0 && t[0] == '-';
    let d = if minus {
        t.skip(1)
    } else {
        t
    };
    let k = text::first_index(d, '.') as int;
    let whole = d.take(k);
    assert(whole.len() == k);
    assert(whole[0] == d[0]);
    assert(is_whole(whole));
    if k < d.len() {
        lemma_point(d);
        let part = d.skip(k + 1);
        assert(d =~= whole + seq!['.'] + part);
        assert(all_digits(part));
        if minus {
            assert(t =~= seq!['-'] + d);
        }
    } else {
        assert(d =~= whole);
        assert(all_digits(Seq::<char>::empty()));
        if minus {
            assert(t =~= seq!['-'] + whole);
        }
    }
}

} // verus!
