//! Text helpers: equality, joining, searching and decimal numerals.
use vstd::prelude::*;
use vstd::string::{StrSliceExecFns, StringExecFns};

verus! {

/// The texts that a list of strings holds.
pub open spec fn texts(list: Seq<String>) -> Seq<Seq<char>> {
    Seq::new(list.len(), |i: int| list[i]@)
}

/// Whether two texts hold the same characters.
pub fn same_text(a: &str, b: &str) -> (same: bool)
    ensures
        same == (a@ == b@),
{
    let left: &[u8] = a.as_bytes();
    let right: &[u8] = b.as_bytes();
    let same = same_bytes(left, right);
    proof {
        vstd::utf8::encode_utf8_decode_utf8(a@);
        vstd::utf8::encode_utf8_decode_utf8(b@);
    }
    same
}

/// Whether two byte strings hold the same bytes.
pub fn same_bytes(a: &[u8], b: &[u8]) -> (same: bool)
    ensures
        same == (a@ == b@),
{
    if a.len() != b.len() {
        return false;
    }
    let mut i: usize = 0;
    while i < a.len()
        invariant
            i <= a@.len(),
            a@.len() == b@.len(),
            forall|k: int| 0 <= k < i ==> a@[k] == b@[k],
        decreases a@.len() - i,
    {
        if a[i] != b[i] {
            return false;
        }
        i += 1;
    }
    assert(a@ =~= b@);
    true
}

/// Whether a text has no characters.
pub fn is_blank(text: &str) -> (blank: bool)
    ensures
        blank == (text@.len() == 0),
{
    proof {
        reveal_strlit("");
        assert(text@.len() == 0 ==> text@ =~= ""@);
    }
    same_text(text, "")
}

/// Whether `list` holds `item`.
pub fn lists_text(list: &Vec<String>, item: &str) -> (found: bool)
    ensures
        found == texts(list@).contains(item@),
{
    let mut i: usize = 0;
    while i < list.len()
        invariant
            i <= list@.len(),
            forall|k: int| 0 <= k < i ==> texts(list@)[k] != item@,
        decreases list@.len() - i,
    {
        if same_text(list[i].as_str(), item) {
            assert(texts(list@)[i as int] == item@);
            return true;
        }
        i += 1;
    }
    false
}

/// The three texts, one behind the other.
pub fn join3(a: &str, b: &str, c: &str) -> (joined: String)
    ensures
        joined@ == a@ + b@ + c@,
{
    a.to_owned().concat(b).concat(c)
}

/// The characters of `text`, in order.
pub fn characters(text: &str) -> (chars: Vec<char>)
    ensures
        chars@ == text@,
{
    let mut chars: Vec<char> = Vec::new();
    for c in it: text.chars()
        invariant
            chars@ == it.seq().take(it.index() as int),
            it.seq() == text@,
    {
        chars.push(c);
        assert(it.seq().take(it.index() + 1) =~= it.seq().take(it.index() as int).push(c));
    }
    assert(text@.take(text@.len() as int) =~= text@);
    chars
}

/// Whether `pattern` occurs in `text`, starting at some position.
pub open spec fn occurs_in(pattern: Seq<char>, text: Seq<char>) -> bool {
    exists|at: int| occurs_at(pattern, text, at)
}

/// Whether `pattern` occurs in `text` at the position `at`.
pub open spec fn occurs_at(pattern: Seq<char>, text: Seq<char>, at: int) -> bool {
    &&& 0 <= at
    &&& at + pattern.len() <= text.len()
    &&& text.subrange(at, at + pattern.len()) == pattern
}

/// Whether `pattern` occurs in `text`.
pub fn contains_text(text: &str, pattern: &str) -> (found: bool)
    ensures
        found == occurs_in(pattern@, text@),
{
    let hay: Vec<char> = characters(text);
    let needle: Vec<char> = characters(pattern);
    if needle.len() > hay.len() {
        return false;
    }
    let size: usize = hay.len();
    let last: usize = size - needle.len();
    let mut at: usize = 0;
    loop
        invariant
            hay@ == text@,
            needle@ == pattern@,
            at <= last,
            hay@.len() <= usize::MAX,
            last == hay@.len() - needle@.len(),
            forall|k: int| 0 <= k < at ==> !occurs_at(pattern@, text@, k),
        decreases last - at,
    {
        let mut i: usize = 0;
        while i < needle.len() && hay[at + i] == needle[i]
            invariant
                i <= needle@.len(),
                at <= last,
                hay@.len() <= usize::MAX,
                last == hay@.len() - needle@.len(),
                forall|k: int| 0 <= k < i ==> hay@[at + k] == needle@[k],
            decreases needle@.len() - i,
        {
            i += 1;
        }
        if i == needle.len() {
            assert(hay@.subrange(at as int, at + needle@.len()) =~= needle@);
            assert(occurs_at(pattern@, text@, at as int));
            return true;
        }
        proof {
            assert(text@.subrange(at as int, at + pattern@.len())[i as int] == hay@[at + i]);
            assert(!occurs_at(pattern@, text@, at as int));
        }
        if at == last {
            return false;
        }
        at += 1;
    }
}

/// What stands behind the last `/` of `text`: all of it where there is none.
pub open spec fn last_segment(text: Seq<char>) -> Seq<char>
    decreases text.len(),
{
    if text.len() == 0 {
        text
    } else if text.last() == '/' {
        Seq::empty()
    } else {
        last_segment(text.drop_last()).push(text.last())
    }
}

/// Cuts `text` behind its last `/`.
pub fn segment_behind_last_slash(text: &str) -> (segment: String)
    ensures
        segment@ == last_segment(text@),
{
    let chars: Vec<char> = characters(text);
    let mut from: usize = chars.len();
    proof {
        assert(text@.take(from as int) =~= text@);
        assert(last_segment(text@) + text@.skip(from as int) =~= last_segment(text@));
    }
    while from > 0 && chars[from - 1] != '/'
        invariant
            from <= chars@.len(),
            chars@ == text@,
            last_segment(text@) == last_segment(text@.take(from as int)) + text@.skip(from as int),
        decreases from,
    {
        proof {
            let before = text@.take(from as int);
            assert(before.drop_last() =~= text@.take(from - 1));
            assert(last_segment(text@) =~= last_segment(text@.take(from - 1)) + text@.skip(
                from - 1,
            ));
        }
        from = from - 1;
    }
    proof {
        assert(text@.skip(from as int) =~= text@.subrange(from as int, chars@.len() as int));
        assert(last_segment(text@) =~= text@.skip(from as int));
    }
    text.substring_char(from, chars.len()).to_owned()
}

/// The numeral of a single decimal digit.
pub open spec fn digit(d: nat) -> Seq<char> {
    if d == 0 {
        "0"@
    } else if d == 1 {
        "1"@
    } else if d == 2 {
        "2"@
    } else if d == 3 {
        "3"@
    } else if d == 4 {
        "4"@
    } else if d == 5 {
        "5"@
    } else if d == 6 {
        "6"@
    } else if d == 7 {
        "7"@
    } else if d == 8 {
        "8"@
    } else {
        "9"@
    }
}

/// The decimal numeral of `n`, without leading zeros.
pub open spec fn decimal(n: nat) -> Seq<char>
    decreases n,
{
    if n < 10 {
        digit(n)
    } else {
        decimal(n / 10) + digit(n % 10)
    }
}

fn digit_text(d: u64) -> (numeral: &'static str)
    requires
        d < 10,
    ensures
        numeral@ == digit(d as nat),
{
    match d {
        0 => "0",
        1 => "1",
        2 => "2",
        3 => "3",
        4 => "4",
        5 => "5",
        6 => "6",
        7 => "7",
        8 => "8",
        _ => "9",
    }
}

/// Writes `n` in decimal.
pub fn decimal_text(n: u64) -> (numeral: String)
    ensures
        numeral@ == decimal(n as nat),
    decreases n,
{
    if n < 10 {
        digit_text(n).to_owned()
    } else {
        decimal_text(n / 10).concat(digit_text(n % 10))
    }
}

/// What stands behind the last slash is the end of the text, and has no slash in it.
pub proof fn law_last_segment(text: Seq<char>)
    ensures
        !last_segment(text).contains('/'),
        last_segment(text).len() <= text.len(),
        text.skip(text.len() - last_segment(text).len()) == last_segment(text),
        last_segment(text).len() < text.len() ==> text[text.len() - last_segment(text).len() - 1]
            == '/',
    decreases text.len(),
{
    if text.len() > 0 && text.last() != '/' {
        let before = text.drop_last();
        law_last_segment(before);
        let segment = last_segment(text);
        assert(segment.drop_last() =~= last_segment(before));
        assert forall|i: int| 0 <= i < segment.len() implies segment[i] != '/' by {
            if i < segment.len() - 1 {
                assert(segment[i] == last_segment(before)[i]);
                assert(last_segment(before).contains(segment[i]));
            }
        }
        assert forall|i: int| 0 <= i < segment.len() implies text.skip(
            text.len() - segment.len(),
        )[i] == segment[i] by {
            if i < segment.len() - 1 {
                assert(before.skip(before.len() - last_segment(before).len())[i] == segment[i]);
            }
        }
        assert(text.skip(text.len() - segment.len()) =~= segment);
    } else {
        assert(text.skip(text.len() - last_segment(text).len()) =~= last_segment(text));
    }
}

proof fn lemma_digit(a: nat, b: nat)
    requires
        a < 10,
        b < 10,
    ensures
        digit(a).len() == 1,
        digit(a) == digit(b) ==> a == b,
{
    lemma_digit_char(a);
    lemma_digit_char(b);
}

proof fn lemma_decimal_cut(n: nat)
    ensures
        decimal(n).len() >= 1,
        decimal(n).last() == digit(n % 10)[0],
        n >= 10 ==> decimal(n).drop_last() == decimal(n / 10) && decimal(n).len() >= 2,
        n < 10 ==> decimal(n).len() == 1,
    decreases n,
{
    lemma_digit(n % 10, n % 10);
    if n >= 10 {
        lemma_decimal_cut(n / 10);
        assert(decimal(n).drop_last() =~= decimal(n / 10));
    }
}

/// Two numbers have different numerals.
pub proof fn law_decimal_tells_apart(a: nat, b: nat)
    requires
        a != b,
    ensures
        decimal(a) != decimal(b),
    decreases a,
{
    lemma_decimal_cut(a);
    lemma_decimal_cut(b);
    lemma_digit(a % 10, b % 10);
    lemma_digit(b % 10, a % 10);
    if decimal(a) == decimal(b) {
        assert(digit(a % 10) =~= digit(b % 10));
        if a >= 10 && b >= 10 {
            law_decimal_tells_apart(a / 10, b / 10);
        }
    }
}

/// The texts of a list are those of its strings, in their order.
pub proof fn law_texts(list: Seq<String>)
    ensures
        texts(list).len() == list.len(),
        forall|i: int| 0 <= i < list.len() ==> #[trigger] texts(list)[i] == list[i]@,
{
}

/// Whether a text is a beginning, then the pattern, then an end.
pub open spec fn splits(
    text: Seq<char>,
    before: Seq<char>,
    pattern: Seq<char>,
    behind: Seq<char>,
) -> bool {
    text == before + pattern + behind
}

/// A pattern occurs in a text if and only if the text is a beginning, then the pattern, then an
/// end.
pub proof fn law_occurs_iff_splits(pattern: Seq<char>, text: Seq<char>)
    ensures
        occurs_in(pattern, text) <==> exists|before: Seq<char>, behind: Seq<char>| #[trigger]
            splits(text, before, pattern, behind),
{
    if occurs_in(pattern, text) {
        let at = choose|at: int| occurs_at(pattern, text, at);
        let (before, behind) = (text.take(at), text.skip(at + pattern.len()));
        assert(text =~= before + text.subrange(at, at + pattern.len()) + behind);
        assert(splits(text, before, pattern, behind));
    }
    if exists|before: Seq<char>, behind: Seq<char>| #[trigger]
        splits(text, before, pattern, behind) {
        let (before, behind) = choose|before: Seq<char>, behind: Seq<char>| #[trigger]
            splits(text, before, pattern, behind);
        let at = before.len() as int;
        assert(text.subrange(at, at + pattern.len()) =~= pattern);
        assert(occurs_at(pattern, text, at));
    }
}

/// A numeral is its digits: one more digit behind a numeral makes it ten times as much and the
/// digit. There is no numeral that starts with a zero but that of zero.
pub proof fn law_decimal_by_digits(n: nat, d: nat)
    requires
        d < 10,
    ensures
        decimal(d).len() == 1,
        decimal(d)[0] as int == '0' as int + d,
        n > 0 ==> decimal(10 * n + d) == decimal(n) + decimal(d),
        n > 0 ==> decimal(n)[0] != '0',
    decreases n,
{
    lemma_digit_char(d);
    if n > 0 {
        assert((10 * n + d) / 10 == n && (10 * n + d) % 10 == d);
        lemma_digit_char(n % 10);
        lemma_decimal_cut(n);
        if n >= 10 {
            law_decimal_by_digits(n / 10, d);
            assert(decimal(n)[0] == decimal(n).drop_last()[0]);
        }
    }
}

proof fn lemma_digit_char(d: nat)
    requires
        d < 10,
    ensures
        digit(d).len() == 1,
        digit(d)[0] as int == '0' as int + d,
{
    reveal_strlit("0");
    reveal_strlit("1");
    reveal_strlit("2");
    reveal_strlit("3");
    reveal_strlit("4");
    reveal_strlit("5");
    reveal_strlit("6");
    reveal_strlit("7");
    reveal_strlit("8");
    reveal_strlit("9");
}

} // verus!
