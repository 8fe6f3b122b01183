//! Text as sequences of characters: comparison, search and assembly.

use vstd::prelude::*;

verus! {

broadcast use vstd::string::group_string_axioms;

/// `text` begins with `prefix`.
pub open spec fn has_prefix(text: Seq<char>, prefix: Seq<char>) -> bool {
    prefix.len() <= text.len() && text.subrange(0, prefix.len() as int) == prefix
}

/// `text` ends with `suffix`.
pub open spec fn has_suffix(text: Seq<char>, suffix: Seq<char>) -> bool {
    suffix.len() <= text.len() && text.subrange(text.len() - suffix.len(), text.len() as int)
        == suffix
}

/// `part` occurs in `text` at position `at`.
pub open spec fn occurs_at(text: Seq<char>, part: Seq<char>, at: int) -> bool {
    0 <= at && at + part.len() <= text.len() && text.subrange(at, at + part.len()) == part
}

/// `part` occurs somewhere in `text`.
pub open spec fn has_part(text: Seq<char>, part: Seq<char>) -> bool {
    exists|at: int| occurs_at(text, part, at)
}

/// The control characters: the Unicode category `Cc`.
pub open spec fn is_control_char(c: char) -> bool {
    (c as int) < 0x20 || 0x7f <= (c as int) <= 0x9f
}

/// Some character of `text` is a control character.
pub open spec fn has_control(text: Seq<char>) -> bool {
    exists|i: int| 0 <= i < text.len() && is_control_char(#[trigger] text[i])
}

/// The characters with the Unicode property `White_Space`.
pub open spec fn is_space_char(c: char) -> bool {
    let code = c as int;
    ||| 0x09 <= code <= 0x0d
    ||| code == 0x20
    ||| code == 0x85
    ||| code == 0xa0
    ||| code == 0x1680
    ||| 0x2000 <= code <= 0x200a
    ||| code == 0x2028
    ||| code == 0x2029
    ||| code == 0x202f
    ||| code == 0x205f
    ||| code == 0x3000
}

/// `0` to `9`, `a` to `f` and `A` to `F`.
pub open spec fn is_hex_char(c: char) -> bool {
    ('0' <= c && c <= '9') || ('a' <= c && c <= 'f') || ('A' <= c && c <= 'F')
}

/// An upper-case ASCII letter turned into its lower-case form; any other character unchanged.
pub open spec fn lower_char(c: char) -> char {
    if 'A' <= c && c <= 'Z' {
        (c as u32 + 32) as char
    } else {
        c
    }
}

/// `text` with every upper-case ASCII letter in lower case.
pub open spec fn lower(text: Seq<char>) -> Seq<char> {
    text.map_values(|c: char| lower_char(c))
}

/// `texts` one after the other with `separator` between neighbours.
pub open spec fn joined(texts: Seq<Seq<char>>, separator: Seq<char>) -> Seq<char>
    decreases texts.len(),
{
    if texts.len() == 0 {
        Seq::empty()
    } else if texts.len() == 1 {
        texts[0]
    } else {
        joined(texts.drop_last(), separator) + separator + texts.last()
    }
}

/// The texts that the strings of a vector hold.
pub open spec fn texts(strings: Seq<String>) -> Seq<Seq<char>> {
    strings.map_values(|s: String| s@)
}

/// The text in an optional string.
pub open spec fn opt_text(value: Option<String>) -> Option<Seq<char>> {
    match value {
        Some(s) => Some(s@),
        None => None,
    }
}

/// The text in an optional string slice.
pub open spec fn opt_str(value: Option<&str>) -> Option<Seq<char>> {
    match value {
        Some(s) => Some(s@),
        None => None,
    }
}

/// The characters of `text`.
pub fn chars_of(text: &str) -> (chars: Vec<char>)
    ensures
        chars@ == text@,
{
    let mut chars: Vec<char> = Vec::new();
    for c in it: text.chars()
        invariant
            chars@ == it.seq().take(it.index()),
            it.seq() == text@,
    {
        chars.push(c);
    }
    chars
}

/// Whether the two texts are the same.
pub fn same(a: &str, b: &str) -> (r: bool)
    ensures
        r == (a@ == b@),
{
    a.to_owned() == b.to_owned()
}

/// Whether two optional texts are the same.
pub fn same_opt(a: &Option<String>, b: &Option<String>) -> (r: bool)
    ensures
        r == (opt_text(*a) == opt_text(*b)),
{
    match (a, b) {
        (Some(x), Some(y)) => same(x.as_str(), y.as_str()),
        (None, None) => true,
        _ => false,
    }
}

/// A copy of an optional text.
pub fn copy_opt(value: &Option<String>) -> (r: Option<String>)
    ensures
        opt_text(r) == opt_text(*value),
{
    match value {
        Some(s) => Some(s.clone()),
        None => None,
    }
}

/// Adding a string to a vector adds its text.
pub proof fn lemma_texts_push(strings: Seq<String>, added: String)
    ensures
        texts(strings.push(added)) == texts(strings).push(added@),
{
    assert(texts(strings.push(added)) =~= texts(strings).push(added@));
}

/// A copy of the texts of a vector.
pub fn copy_texts(values: &Vec<String>) -> (r: Vec<String>)
    ensures
        texts(r@) == texts(values@),
{
    let mut r: Vec<String> = Vec::new();
    for i in 0..values.len()
        invariant
            texts(r@) == texts(values@).take(i as int),
    {
        proof {
            lemma_texts_push(r@, values@[i as int]);
        }
        r.push(values[i].clone());
        assert(texts(values@).take(i as int + 1) =~= texts(values@).take(i as int).push(
            values@[i as int]@,
        ));
    }
    assert(texts(values@).take(values@.len() as int) =~= texts(values@));
    r
}

/// Whether `text` begins with `prefix`.
pub fn starts_with(text: &str, prefix: &str) -> (r: bool)
    ensures
        r == has_prefix(text@, prefix@),
{
    let a = chars_of(text);
    let b = chars_of(prefix);
    if b.len() > a.len() {
        return false;
    }
    matches_at(&a, &b, 0)
}

/// Whether `part` stands in `text` at `at`.
fn matches_at(text: &Vec<char>, part: &Vec<char>, at: usize) -> (r: bool)
    requires
        at + part@.len() <= text@.len(),
    ensures
        r == occurs_at(text@, part@, at as int),
{
    let end = text.len();
    let mut i: usize = 0;
    while i < part.len()
        invariant
            i <= part@.len(),
            end == text@.len(),
            at + part@.len() <= text@.len(),
            forall|j: int| 0 <= j < i ==> text@[at + j] == part@[j],
        decreases part@.len() - i,
    {
        if text[at + i] != part[i] {
            assert(text@.subrange(at as int, at + part@.len())[i as int] != part@[i as int]);
            return false;
        }
        i = i + 1;
    }
    assert(text@.subrange(at as int, at + part@.len()) =~= part@);
    true
}

/// Whether `text` ends with `suffix`.
pub fn ends_with(text: &str, suffix: &str) -> (r: bool)
    ensures
        r == has_suffix(text@, suffix@),
{
    let a = chars_of(text);
    let b = chars_of(suffix);
    if b.len() > a.len() {
        return false;
    }
    matches_at(&a, &b, a.len() - b.len())
}

/// Whether `part` occurs in the lower-cased `text`.
pub fn contains_lowered(text: &str, part: &str) -> (r: bool)
    ensures
        r == has_part(lower(text@), part@),
{
    let chars = chars_of(text);
    let mut low: Vec<char> = Vec::new();
    let mut i: usize = 0;
    while i < chars.len()
        invariant
            i <= chars@.len(),
            chars@ == text@,
            low@ == lower(text@).take(i as int),
        decreases chars@.len() - i,
    {
        low.push(lowered(chars[i]));
        i = i + 1;
        assert(low@ =~= lower(text@).take(i as int));
    }
    assert(low@ =~= lower(text@));
    contains_chars(&low, &chars_of(part))
}

/// Whether `part` occurs in `text`.
fn contains_chars(text: &Vec<char>, part: &Vec<char>) -> (r: bool)
    ensures
        r == has_part(text@, part@),
{
    if part.len() > text.len() {
        return false;
    }
    let last = text.len() - part.len();
    let mut at: usize = 0;
    while at <= last
        invariant
            last + part@.len() == text@.len(),
            at <= last + 1,
            forall|k: int| 0 <= k < at ==> !occurs_at(text@, part@, k),
        decreases last + 1 - at,
    {
        if matches_at(text, part, at) {
            return true;
        }
        if at == last {
            return false;
        }
        at = at + 1;
    }
    false
}

/// Whether the character `c` occurs in `text`.
pub fn contains_char(text: &str, c: char) -> (r: bool)
    ensures
        r == text@.contains(c),
{
    for x in it: text.chars()
        invariant
            it.seq() == text@,
            forall|i: int| 0 <= i < it.index() ==> text@[i] != c,
    {
        if x == c {
            assert(text@[it.index()] == c);
            return true;
        }
    }
    false
}

/// Whether `c` is a control character.
pub fn is_control(c: char) -> (r: bool)
    ensures
        r == is_control_char(c),
{
    let code = c as u32;
    code < 0x20 || (0x7f <= code && code <= 0x9f)
}

/// Whether `text` holds a control character.
pub fn any_control(text: &str) -> (r: bool)
    ensures
        r == has_control(text@),
{
    for x in it: text.chars()
        invariant
            it.seq() == text@,
            forall|i: int| 0 <= i < it.index() ==> !is_control_char(text@[i]),
    {
        if is_control(x) {
            assert(is_control_char(text@[it.index()]));
            return true;
        }
    }
    false
}

/// Whether `c` is a hexadecimal digit.
pub fn is_hex(c: char) -> (r: bool)
    ensures
        r == is_hex_char(c),
{
    ('0' <= c && c <= '9') || ('a' <= c && c <= 'f') || ('A' <= c && c <= 'F')
}

/// `c` with an upper-case ASCII letter in lower case.
fn lowered(c: char) -> (r: char)
    ensures
        r == lower_char(c),
{
    if 'A' <= c && c <= 'Z' {
        let code = c as u8;
        (code + 32) as char
    } else {
        c
    }
}

/// Whether `a` and `b` are the same but for the case of ASCII letters.
pub fn same_ignoring_case(a: &str, b: &str) -> (r: bool)
    ensures
        r == (lower(a@) == lower(b@)),
{
    let x = chars_of(a);
    let y = chars_of(b);
    if x.len() != y.len() {
        assert(lower(a@).len() != lower(b@).len());
        return false;
    }
    prefix_ignoring_case(&x, &y)
}

/// Whether `text` begins with the lower-cased `prefix`.
pub fn starts_with_lowered(text: &str, prefix: &str) -> (r: bool)
    ensures
        r == has_prefix(text@, lower(prefix@)),
{
    let x = chars_of(text);
    let y = chars_of(prefix);
    let ghost pre = lower(prefix@);
    if y.len() > x.len() {
        return false;
    }
    let mut i: usize = 0;
    while i < y.len()
        invariant
            i <= y@.len() <= x@.len(),
            x@ == text@,
            y@ == prefix@,
            pre == lower(prefix@),
            forall|j: int| 0 <= j < i ==> text@[j] == pre[j],
        decreases y@.len() - i,
    {
        if x[i] != lowered(y[i]) {
            assert(text@[i as int] != pre[i as int]);
            assert(text@.subrange(0, pre.len() as int)[i as int] != pre[i as int]);
            return false;
        }
        i = i + 1;
    }
    assert(text@.subrange(0, pre.len() as int) =~= pre);
    true
}

/// Whether the lower-cased `text` begins with the lower-cased `prefix`, which is no longer.
fn prefix_ignoring_case(text: &Vec<char>, prefix: &Vec<char>) -> (r: bool)
    requires
        prefix@.len() <= text@.len(),
    ensures
        r == has_prefix(lower(text@), lower(prefix@)),
        prefix@.len() == text@.len() ==> r == (lower(text@) == lower(prefix@)),
{
    let ghost low = lower(text@);
    let ghost pre = lower(prefix@);
    let mut i: usize = 0;
    while i < prefix.len()
        invariant
            i <= prefix@.len() <= text@.len(),
            low == lower(text@),
            pre == lower(prefix@),
            forall|j: int| 0 <= j < i ==> low[j] == pre[j],
        decreases prefix@.len() - i,
    {
        if lowered(text[i]) != lowered(prefix[i]) {
            assert(low[i as int] != pre[i as int]);
            assert(low.subrange(0, pre.len() as int)[i as int] != pre[i as int]);
            return false;
        }
        i = i + 1;
    }
    assert(low.subrange(0, pre.len() as int) =~= pre);
    assert(prefix@.len() == text@.len() ==> low =~= pre);
    true
}

/// Whether `text` without surrounding white space is `expected`.
pub open spec fn trims_to(text: Seq<char>, expected: Seq<char>) -> bool {
    exists|from: int, to: int| trimmed_between(text, from, to) && text.subrange(from, to)
        == expected
}

/// What stands in `text` outside `from..to` is white space, and what stands inside it neither
/// begins nor ends with any.
pub open spec fn trimmed_between(text: Seq<char>, from: int, to: int) -> bool {
    &&& 0 <= from <= to <= text.len()
    &&& forall|i: int| 0 <= i < from ==> is_space_char(#[trigger] text[i])
    &&& forall|i: int| to <= i < text.len() ==> is_space_char(#[trigger] text[i])
    &&& from < to ==> !is_space_char(text[from]) && !is_space_char(text[to - 1])
}

/// Whether `c` is white space.
fn is_space(c: char) -> (r: bool)
    ensures
        r == is_space_char(c),
{
    let code = c as u32;
    (0x09 <= code && code <= 0x0d) || code == 0x20 || code == 0x85 || code == 0xa0 || code == 0x1680
        || (0x2000 <= code && code <= 0x200a) || code == 0x2028 || code == 0x2029 || code == 0x202f
        || code == 0x205f || code == 0x3000
}

/// `text` without surrounding white space.
pub fn trimmed(text: &str) -> (r: String)
    ensures
        trims_to(text@, r@),
{
    let chars = chars_of(text);
    let mut from: usize = 0;
    while from < chars.len() && is_space(chars[from])
        invariant
            from <= chars@.len(),
            forall|i: int| 0 <= i < from ==> is_space_char(#[trigger] chars@[i]),
        decreases chars@.len() - from,
    {
        from = from + 1;
    }
    let mut to: usize = chars.len();
    while to > from && is_space(chars[to - 1])
        invariant
            from <= to <= chars@.len(),
            from < chars@.len() ==> !is_space_char(chars@[from as int]),
            forall|i: int| to <= i < chars@.len() ==> is_space_char(#[trigger] chars@[i]),
        decreases to,
    {
        to = to - 1;
    }
    assert(trimmed_between(text@, from as int, to as int));
    text.substring_char(from, to).to_owned()
}

/// A text trims to only one text.
pub proof fn lemma_trim_unique(text: Seq<char>, a: Seq<char>, b: Seq<char>)
    requires
        trims_to(text, a),
        trims_to(text, b),
    ensures
        a == b,
{
    let (f1, t1) = choose|from: int, to: int|
        trimmed_between(text, from, to) && text.subrange(from, to) == a;
    let (f2, t2) = choose|from: int, to: int|
        trimmed_between(text, from, to) && text.subrange(from, to) == b;
    if f1 < t1 && f2 < t2 {
        assert(f1 == f2) by {
            if f1 < f2 {
                assert(is_space_char(text[f1]));
            }
            if f2 < f1 {
                assert(is_space_char(text[f2]));
            }
        }
        assert(t1 == t2) by {
            if t1 < t2 {
                assert(is_space_char(text[t2 - 1]));
            }
            if t2 < t1 {
                assert(is_space_char(text[t1 - 1]));
            }
        }
    } else if f1 < t1 {
        if f1 < f2 {
            assert(is_space_char(text[f1]));
        } else {
            assert(is_space_char(text[f1]));
        }
    } else if f2 < t2 {
        if f2 < f1 {
            assert(is_space_char(text[f2]));
        } else {
            assert(is_space_char(text[f2]));
        }
    } else {
        assert(a =~= b);
    }
}

/// `a` followed by `b`.
pub fn plus(a: &str, b: &str) -> (r: String)
    ensures
        r@ == a@ + b@,
{
    let mut r = a.to_owned();
    r.append(b);
    r
}

/// `a`, `b` and `c` in a row.
pub fn plus3(a: &str, b: &str, c: &str) -> (r: String)
    ensures
        r@ == a@ + b@ + c@,
{
    let mut r = a.to_owned();
    r.append(b);
    r.append(c);
    r
}

/// The strings of `parts` with `separator` between neighbours.
pub fn join(parts: &Vec<String>, separator: &str) -> (r: String)
    ensures
        r@ == joined(texts(parts@), separator@),
{
    let mut r = String::new();
    let ghost all = texts(parts@);
    let mut i: usize = 0;
    while i < parts.len()
        invariant
            i <= parts@.len(),
            all == texts(parts@),
            r@ == joined(all.take(i as int), separator@),
        decreases parts@.len() - i,
    {
        assert(all.take(i as int + 1).drop_last() =~= all.take(i as int));
        assert(all.take(i as int + 1).last() == parts@[i as int]@);
        if i > 0 {
            r.append(separator);
        } else {
            assert(r@ + parts@[i as int]@ =~= parts@[i as int]@);
        }
        r.append(parts[i].as_str());
        i = i + 1;
    }
    assert(all.take(parts@.len() as int) =~= all);
    r
}

/// The decimal digit of a number below ten.
pub open spec fn digit(d: nat) -> char {
    if d == 0 {
        '0'
    } else if d == 1 {
        '1'
    } else if d == 2 {
        '2'
    } else if d == 3 {
        '3'
    } else if d == 4 {
        '4'
    } else if d == 5 {
        '5'
    } else if d == 6 {
        '6'
    } else if d == 7 {
        '7'
    } else if d == 8 {
        '8'
    } else {
        '9'
    }
}

/// A number in decimal.
pub open spec fn decimal_text(n: nat) -> Seq<char>
    decreases n,
{
    if n < 10 {
        seq![digit(n)]
    } else {
        decimal_text(n / 10).push(digit(n % 10))
    }
}

/// The decimal digit of a number below ten.
fn digit_str(d: u64) -> (r: &'static str)
    requires
        d < 10,
    ensures
        r@ == seq![digit(d as nat)],
{
    proof {
        reveal_strlit("0");
        reveal_strlit("1");
        reveal_strlit("2");
        reveal_strlit("3");
        reveal_strlit("4");
        reveal_strlit("5");
        reveal_strlit("6");
        reveal_strlit("7");
        reveal_strlit("8");
        reveal_strlit("9");
    }
    let r = match d {
        0 => "0",
        1 => "1",
        2 => "2",
        3 => "3",
        4 => "4",
        5 => "5",
        6 => "6",
        7 => "7",
        8 => "8",
        _ => "9",
    };
    assert(r@ =~= seq![digit(d as nat)]);
    r
}

/// A number in decimal.
pub fn decimal(n: u64) -> (r: String)
    ensures
        r@ == decimal_text(n as nat),
    decreases n,
{
    if n < 10 {
        return digit_str(n).to_owned();
    }
    let mut r = decimal(n / 10);
    r.append(digit_str(n % 10));
    assert(r@ =~= decimal_text((n / 10) as nat).push(digit((n % 10) as nat)));
    r
}

} // verus!
