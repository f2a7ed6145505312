//! Decimal numbers and separated fields in text.

use vstd::prelude::*;

verus! {

/// Whether `c` is one of the ten ASCII digits.
pub open spec fn is_digit(c: char) -> bool {
    '0' <= c && c <= '9'
}

/// The number that the digit `c` stands for.
pub open spec fn digit_value(c: char) -> nat {
    (c as int - '0' as int) as nat
}

/// The digit that stands for `d`, for `d` below ten.
pub open spec fn digit_char(d: nat) -> char {
    (d + '0' as nat) as char
}

/// Whether `s` holds digits only.
pub open spec fn all_digits(s: Seq<char>) -> bool {
    forall|i: int| 0 <= i < s.len() ==> is_digit(#[trigger] s[i])
}

/// The number that the digits of `s` write in base ten.
pub open spec fn decimal_value(s: Seq<char>) -> nat
    decreases s.len(),
{
    if s.len() == 0 {
        0
    } else {
        10 * decimal_value(s.drop_last()) + digit_value(s.last())
    }
}

/// The digits of `n` in base ten, without leading zeros.
pub open spec fn decimal_text(n: nat) -> Seq<char>
    decreases n,
{
    if n < 10 {
        seq![digit_char(n)]
    } else {
        decimal_text(n / 10).push(digit_char(n % 10))
    }
}

/// Whether `s` writes a number the way `decimal_text` does.
pub open spec fn is_canonical(s: Seq<char>) -> bool {
    &&& s.len() >= 1
    &&& all_digits(s)
    &&& s.len() == 1 || s[0] != '0'
}

/// The fields of `s` between the occurrences of `sep`.
pub open spec fn split(s: Seq<char>, sep: char) -> Seq<Seq<char>>
    decreases s.len(),
{
    if s.len() == 0 {
        seq![Seq::empty()]
    } else {
        let fields = split(s.drop_last(), sep);
        if s.last() == sep {
            fields.push(Seq::empty())
        } else {
            fields.drop_last().push(fields.last().push(s.last()))
        }
    }
}

/// The characters of `s`.
pub(crate) fn chars_of(s: &str) -> (v: Vec<char>)
    ensures
        v@ == s@,
{
    let mut v: Vec<char> = Vec::new();
    for c in it: s.chars()
        invariant
            it.seq() == s@,
            v@ == s@.take(it.index() as int),
    {
        v.push(c);
        assert(s@.take(it.index() + 1) =~= s@.take(it.index() as int).push(c));
    }
    assert(s@.take(s@.len() as int) =~= s@);
    v
}

/// The views of the fields of `fields`.
pub open spec fn field_views(fields: Seq<Vec<char>>) -> Seq<Seq<char>> {
    fields.map_values(|f: Vec<char>| f@)
}

/// Splits `s` at every occurrence of `sep`.
pub(crate) fn split_fields(s: &Vec<char>, sep: char) -> (fields: Vec<Vec<char>>)
    ensures
        field_views(fields@) == split(s@, sep),
{
    let mut fields: Vec<Vec<char>> = Vec::new();
    let mut current: Vec<char> = Vec::new();
    let mut i: usize = 0;
    while i < s.len()
        invariant
            0 <= i <= s.len(),
            field_views(fields@).push(current@) == split(s@.take(i as int), sep),
        decreases s.len() - i,
    {
        let c = s[i];
        proof {
            assert(s@.take(i + 1).drop_last() =~= s@.take(i as int));
        }
        if c == sep {
            let ghost before = field_views(fields@);
            fields.push(current);
            assert(field_views(fields@) =~= before.push(current@));
            current = Vec::new();
        } else {
            let ghost before = current@;
            current.push(c);
            assert(field_views(fields@).push(before).drop_last() =~= field_views(fields@));
        }
        i += 1;
    }
    assert(s@.take(s.len() as int) =~= s@);
    let ghost before = field_views(fields@);
    fields.push(current);
    assert(field_views(fields@) =~= before.push(current@));
    fields
}

/// Tells whether `s` holds digits only.
pub(crate) fn only_digits(s: &Vec<char>) -> (b: bool)
    ensures
        b == all_digits(s@),
{
    let mut i: usize = 0;
    while i < s.len()
        invariant
            0 <= i <= s.len(),
            forall|j: int| 0 <= j < i ==> is_digit(#[trigger] s@[j]),
        decreases s.len() - i,
    {
        let c = s[i];
        if !('0' <= c && c <= '9') {
            return false;
        }
        i += 1;
    }
    true
}

/// A number does not shrink when digits are written behind it.
pub proof fn lemma_decimal_value_grows(s: Seq<char>, i: int)
    requires
        0 <= i <= s.len(),
    ensures
        decimal_value(s.take(i)) <= decimal_value(s),
    decreases s.len() - i,
{
    if i < s.len() {
        assert(s.take(i + 1).drop_last() =~= s.take(i));
        lemma_decimal_value_grows(s, i + 1);
    } else {
        assert(s.take(i) =~= s);
    }
}

/// The value of the digits of `s`, unless it exceeds `cap`.
pub(crate) fn decimal_up_to(s: &Vec<char>, cap: u32) -> (r: Option<u32>)
    requires
        all_digits(s@),
        cap <= 0x0fff_ffff,
    ensures
        r == if decimal_value(s@) <= cap {
            Some(decimal_value(s@) as u32)
        } else {
            None
        },
{
    let mut acc: u32 = 0;
    let mut i: usize = 0;
    while i < s.len()
        invariant
            0 <= i <= s.len(),
            all_digits(s@),
            cap <= 0x0fff_ffff,
            acc == decimal_value(s@.take(i as int)),
            acc <= cap,
        decreases s.len() - i,
    {
        let c = s[i];
        assert(is_digit(s@[i as int]));
        let d: u32 = c as u32 - '0' as u32;
        proof {
            assert(s@.take(i + 1).drop_last() =~= s@.take(i as int));
        }
        let next: u32 = 10 * acc + d;
        if next > cap {
            proof {
                lemma_decimal_value_grows(s@, i + 1);
            }
            return None;
        }
        acc = next;
        i += 1;
    }
    assert(s@.take(s.len() as int) =~= s@);
    Some(acc)
}

/// The fields of `fields` written one behind the other with `sep` between
/// each two.
pub open spec fn join(fields: Seq<Seq<char>>, sep: char) -> Seq<char>
    decreases fields.len(),
{
    if fields.len() == 0 {
        Seq::empty()
    } else if fields.len() == 1 {
        fields[0]
    } else {
        join(fields.drop_last(), sep) + seq![sep] + fields.last()
    }
}

/// A digit is the digit of its value, and a value below ten the value of
/// its digit.
pub proof fn lemma_digits(d: nat, c: char)
    ensures
        d < 10 ==> is_digit(digit_char(d)) && digit_value(digit_char(d)) == d,
        d < 10 ==> (digit_char(d) == '0' <==> d == 0),
        is_digit(c) ==> digit_value(c) < 10 && digit_char(digit_value(c)) == c,
{
}

/// The decimal text of a number is canonical.
pub proof fn lemma_decimal_text_is_canonical(n: nat)
    ensures
        is_canonical(decimal_text(n)),
        n >= 1 ==> decimal_text(n)[0] != '0',
        n < 10 ==> decimal_text(n).len() == 1,
        10 <= n < 100 ==> decimal_text(n).len() == 2,
        100 <= n < 1000 ==> decimal_text(n).len() == 3,
    decreases n,
{
    let s = decimal_text(n);
    if n >= 10 {
        lemma_decimal_text_is_canonical(n / 10);
        lemma_digits(n % 10, '0');
        let t = decimal_text(n / 10);
        assert(s == t.push(digit_char(n % 10)));
        assert(s[0] == t[0]);
        assert forall|i: int| 0 <= i < s.len() implies is_digit(#[trigger] s[i]) by {
            if i < t.len() {
                assert(s[i] == t[i]);
                assert(is_digit(t[i]));
            }
        }
    } else {
        lemma_digits(n, '0');
        assert(s == seq![digit_char(n)]);
        assert(s[0] == digit_char(n));
        assert forall|i: int| 0 <= i < s.len() implies is_digit(#[trigger] s[i]) by {
            assert(s[i] == s[0]);
        }
    }
}

/// Reading the decimal text of a number gives the number.
pub proof fn lemma_value_of_text(n: nat)
    ensures
        decimal_value(decimal_text(n)) == n,
    decreases n,
{
    let s = decimal_text(n);
    if n >= 10 {
        lemma_value_of_text(n / 10);
        lemma_digits(n % 10, '0');
        assert(s == decimal_text(n / 10).push(digit_char(n % 10)));
        assert(s.drop_last() =~= decimal_text(n / 10));
        assert(s.last() == digit_char(n % 10));
    } else {
        lemma_digits(n, '0');
        assert(s == seq![digit_char(n)]);
        assert(s.drop_last() =~= Seq::<char>::empty());
        assert(decimal_value(s.drop_last()) == 0);
        assert(s.last() == digit_char(n));
    }
}

/// Writing the number that a canonical text reads as gives the text.
pub proof fn lemma_text_of_value(s: Seq<char>)
    requires
        is_canonical(s),
    ensures
        decimal_text(decimal_value(s)) == s,
    decreases s.len(),
{
    let last = s.last();
    let front = s.drop_last();
    assert(is_digit(s[s.len() - 1]));
    lemma_digits(0, last);
    if s.len() == 1 {
        assert(front =~= Seq::<char>::empty());
        assert(decimal_value(front) == 0);
        assert(decimal_text(decimal_value(s)) =~= s);
    } else {
        assert(front[0] == s[0]);
        assert(is_digit(s[0]));
        assert forall|i: int| 0 <= i < front.len() implies is_digit(#[trigger] front[i]) by {
            assert(front[i] == s[i]);
        }
        lemma_text_of_value(front);
        lemma_canonical_value_positive(front);
        let v = decimal_value(s);
        assert(v / 10 == decimal_value(front));
        assert(v % 10 == digit_value(last));
        assert(decimal_text(v) =~= s);
    }
}

/// A canonical text of more than one digit, or of a digit other than zero,
/// reads as a number above zero.
pub proof fn lemma_canonical_value_positive(s: Seq<char>)
    requires
        is_canonical(s),
        s[0] != '0',
    ensures
        decimal_value(s) >= 1,
    decreases s.len(),
{
    assert(is_digit(s[0]));
    if s.len() == 1 {
        assert(s.drop_last() =~= Seq::<char>::empty());
        assert(decimal_value(s.drop_last()) == 0);
    } else {
        let front = s.drop_last();
        assert(front[0] == s[0]);
        assert forall|i: int| 0 <= i < front.len() implies is_digit(#[trigger] front[i]) by {
            assert(front[i] == s[i]);
        }
        lemma_canonical_value_positive(front);
    }
}

/// A text splits into at least one field.
pub proof fn lemma_split_len(s: Seq<char>, sep: char)
    ensures
        split(s, sep).len() >= 1,
    decreases s.len(),
{
    if s.len() > 0 {
        lemma_split_len(s.drop_last(), sep);
    }
}

/// A text without the separator is one field.
pub proof fn lemma_split_plain(s: Seq<char>, sep: char)
    requires
        !s.contains(sep),
    ensures
        split(s, sep) == seq![s],
    decreases s.len(),
{
    if s.len() > 0 {
        let front = s.drop_last();
        assert forall|i: int| 0 <= i < front.len() implies front[i] != sep by {
            assert(front[i] == s[i]);
            assert(s.contains(s[i]));
        }
        assert(!front.contains(sep));
        lemma_split_plain(front, sep);
        assert(s.contains(s[s.len() - 1]));
        assert(front.push(s.last()) =~= s);
        assert(seq![front].drop_last() =~= Seq::<Seq<char>>::empty());
        assert(seq![front].last() == front);
        assert(split(s, sep) =~= seq![s]);
    } else {
        assert(s =~= Seq::<char>::empty());
        assert(split(s, sep) =~= seq![s]);
    }
}

/// The fields of two texts with a separator between them are the fields of
/// the first followed by those of the second.
pub proof fn lemma_split_concat(a: Seq<char>, b: Seq<char>, sep: char)
    ensures
        split(a + seq![sep] + b, sep) == split(a, sep) + split(b, sep),
    decreases b.len(),
{
    let whole = a + seq![sep] + b;
    if b.len() == 0 {
        assert(whole.drop_last() =~= a);
        assert(split(whole, sep) =~= split(a, sep) + split(b, sep));
    } else {
        let front = b.drop_last();
        lemma_split_concat(a, front, sep);
        lemma_split_len(front, sep);
        assert(whole.drop_last() =~= a + seq![sep] + front);
        assert(whole.last() == b.last());
        let fa = split(a, sep);
        let ff = split(front, sep);
        if b.last() == sep {
            assert(split(whole, sep) =~= fa + split(b, sep));
        } else {
            assert((fa + ff).drop_last() =~= fa + ff.drop_last());
            assert((fa + ff).last() == ff.last());
            assert(split(whole, sep) =~= fa + split(b, sep));
        }
    }
}

/// Joining the fields of a text gives the text.
pub proof fn lemma_join_split(s: Seq<char>, sep: char)
    ensures
        join(split(s, sep), sep) == s,
    decreases s.len(),
{
    if s.len() == 0 {
        assert(join(split(s, sep), sep) =~= s);
    } else {
        let front = s.drop_last();
        let c = s.last();
        let ff = split(front, sep);
        let f = split(s, sep);
        lemma_join_split(front, sep);
        lemma_split_len(front, sep);
        assert(s =~= front.push(c));
        if c == sep {
            assert(f.drop_last() =~= ff);
            assert(join(f, sep) =~= join(ff, sep) + seq![sep] + Seq::<char>::empty());
            assert(join(f, sep) =~= s);
        } else if ff.len() == 1 {
            assert(f =~= seq![ff[0].push(c)]);
            assert(join(f, sep) =~= s);
        } else {
            assert(f.drop_last() =~= ff.drop_last());
            assert(f.last() == ff.last().push(c));
            assert(join(f, sep) =~= (join(ff.drop_last(), sep) + seq![sep] + ff.last()).push(c));
            assert(join(f, sep) =~= s);
        }
    }
}

} // verus!
