use vstd::prelude::*;

verus! {

/// The pieces of `s` between occurrences of `sep`, in order; there is always
/// at least one piece, and `k` separators give `k + 1` pieces.
pub open spec fn split(s: Seq<char>, sep: char) -> Seq<Seq<char>>
    decreases s.len(),
{
    if s.len() == 0 {
        seq![Seq::empty()]
    } else {
        let p = split(s.drop_last(), sep);
        if s.last() == sep {
            p.push(Seq::empty())
        } else {
            p.update(p.len() - 1, p.last().push(s.last()))
        }
    }
}

pub proof fn lemma_split_len(s: Seq<char>, sep: char)
    ensures
        split(s, sep).len() >= 1,
    decreases s.len(),
{
    if s.len() > 0 {
        lemma_split_len(s.drop_last(), sep);
    }
}

/// The whitespace that lines and fields are trimmed of.
pub open spec fn is_space(c: char) -> bool {
    c == ' ' || c == '\t' || c == '\n' || c == '\r'
}

/// `s` without leading whitespace.
pub open spec fn trim_start(s: Seq<char>) -> Seq<char>
    decreases s.len(),
{
    if s.len() > 0 && is_space(s[0]) {
        trim_start(s.drop_first())
    } else {
        s
    }
}

/// `s` without trailing whitespace.
pub open spec fn trim_end(s: Seq<char>) -> Seq<char>
    decreases s.len(),
{
    if s.len() > 0 && is_space(s.last()) {
        trim_end(s.drop_last())
    } else {
        s
    }
}

/// `s` without leading or trailing whitespace.
pub open spec fn trim(s: Seq<char>) -> Seq<char> {
    trim_end(trim_start(s))
}

pub open spec fn is_digit(c: char) -> bool {
    '0' <= c && c <= '9'
}

pub open spec fn digit_value(c: char) -> int {
    c as int - '0' as int
}

/// A non-empty run of decimal digits.
pub open spec fn is_digits(s: Seq<char>) -> bool {
    s.len() > 0 && forall|i: int| 0 <= i < s.len() ==> is_digit(#[trigger] s[i])
}

/// The number that a run of decimal digits writes.
pub open spec fn digits_value(s: Seq<char>) -> nat
    decreases s.len(),
{
    if s.len() == 0 {
        0
    } else {
        (digits_value(s.drop_last()) * 10 + digit_value(s.last())) as nat
    }
}

/// A decimal integer with an optional leading `+` or `-`.
pub open spec fn is_int(s: Seq<char>) -> bool {
    if s.len() > 0 && (s[0] == '-' || s[0] == '+') {
        is_digits(s.drop_first())
    } else {
        is_digits(s)
    }
}

/// The value of a decimal integer with an optional sign.
pub open spec fn int_value(s: Seq<char>) -> int {
    if s.len() > 0 && s[0] == '-' {
        -digits_value(s.drop_first())
    } else if s.len() > 0 && s[0] == '+' {
        digits_value(s.drop_first()) as int
    } else {
        digits_value(s) as int
    }
}

pub proof fn lemma_digits_value_prefix(s: Seq<char>, k: int)
    requires
        0 <= k <= s.len(),
        forall|i: int| 0 <= i < s.len() ==> is_digit(#[trigger] s[i]),
    ensures
        digits_value(s.take(k)) <= digits_value(s),
    decreases s.len(),
{
    if k < s.len() {
        assert(s.drop_last().take(k) =~= s.take(k));
        lemma_digits_value_prefix(s.drop_last(), k);
    } else {
        assert(s.take(k) =~= s);
    }
}

/// The characters of `s`, in order.
pub fn chars_of(s: &str) -> (r: Vec<char>)
    ensures
        r@ == s@,
{
    broadcast use vstd::string::axiom_spec_iter;

    let mut v: Vec<char> = Vec::new();
    for c in it: s.chars()
        invariant
            v@ == it.seq().take(it.index() as int),
    {
        v.push(c);
    }
    assert(v@ =~= s@);
    v
}

/// Splits `s[lo..hi]` at every `sep`.
pub fn split_range(s: &Vec<char>, lo: usize, hi: usize, sep: char) -> (r: Vec<Vec<char>>)
    requires
        lo <= hi <= s.len(),
    ensures
        r@.map_values(|l: Vec<char>| l@) == split(s@.subrange(lo as int, hi as int), sep),
{
    let mut done: Vec<Vec<char>> = Vec::new();
    let mut cur: Vec<char> = Vec::new();
    let mut i = lo;
    proof {
        assert(s@.subrange(lo as int, lo as int) =~= Seq::<char>::empty());
        assert(done@.map_values(|l: Vec<char>| l@).push(cur@) =~= seq![Seq::<char>::empty()]);
    }
    while i < hi
        invariant
            lo <= i <= hi <= s.len(),
            done@.map_values(|l: Vec<char>| l@).push(cur@) == split(
                s@.subrange(lo as int, i as int),
                sep,
            ),
        decreases hi - i,
    {
        let c = s[i];
        let ghost before = s@.subrange(lo as int, i as int);
        let ghost after = s@.subrange(lo as int, i + 1);
        proof {
            assert(after.drop_last() =~= before);
            assert(after.last() == c);
        }
        if c == sep {
            done.push(cur);
            cur = Vec::new();
            proof {
                assert(done@.map_values(|l: Vec<char>| l@).push(cur@) =~= split(before, sep).push(
                    Seq::empty(),
                ));
            }
        } else {
            let ghost old_done = done@.map_values(|l: Vec<char>| l@);
            cur.push(c);
            proof {
                assert(done@.map_values(|l: Vec<char>| l@) == old_done);
                assert(done@.map_values(|l: Vec<char>| l@).push(cur@) =~= split(before, sep).update(
                    split(before, sep).len() - 1,
                    split(before, sep).last().push(c),
                ));
            }
        }
        i = i + 1;
    }
    done.push(cur);
    done
}

/// Splits the text `s` at every `sep`.
pub fn split_chars(s: &Vec<char>, sep: char) -> (r: Vec<Vec<char>>)
    ensures
        r@.map_values(|l: Vec<char>| l@) == split(s@, sep),
{
    let r = split_range(s, 0, s.len(), sep);
    assert(s@.subrange(0, s.len() as int) =~= s@);
    r
}

pub fn is_space_char(c: char) -> (r: bool)
    ensures
        r == is_space(c),
{
    c == ' ' || c == '\t' || c == '\n' || c == '\r'
}

/// The bounds of `s[lo..hi]` with surrounding whitespace taken away.
pub fn trim_range(s: &Vec<char>, lo: usize, hi: usize) -> (r: (usize, usize))
    requires
        lo <= hi <= s.len(),
    ensures
        lo <= r.0 <= r.1 <= hi,
        s@.subrange(r.0 as int, r.1 as int) == trim(s@.subrange(lo as int, hi as int)),
{
    let mut a = lo;
    while a < hi && is_space_char(s[a])
        invariant
            lo <= a <= hi <= s.len(),
            trim_start(s@.subrange(lo as int, hi as int)) == trim_start(
                s@.subrange(a as int, hi as int),
            ),
        decreases hi - a,
    {
        assert(s@.subrange(a as int, hi as int).drop_first() =~= s@.subrange(a + 1, hi as int));
        a = a + 1;
    }
    let mut b = hi;
    while b > a && is_space_char(s[b - 1])
        invariant
            lo <= a <= b <= hi <= s.len(),
            trim_end(s@.subrange(a as int, hi as int)) == trim_end(s@.subrange(a as int, b as int)),
        decreases b - a,
    {
        assert(s@.subrange(a as int, b as int).drop_last() =~= s@.subrange(a as int, b - 1));
        b = b - 1;
    }
    (a, b)
}

/// The number that `s[lo..hi]` writes in decimal digits, where it is one that
/// fits in a `u64`.
pub fn parse_digits(s: &Vec<char>, lo: usize, hi: usize) -> (r: Option<u64>)
    requires
        lo <= hi <= s.len(),
    ensures
        r is Some <==> is_digits(s@.subrange(lo as int, hi as int)) && digits_value(
            s@.subrange(lo as int, hi as int),
        ) <= u64::MAX,
        r is Some ==> r->0 == digits_value(s@.subrange(lo as int, hi as int)),
{
    let ghost t = s@.subrange(lo as int, hi as int);
    if lo == hi {
        return None;
    }
    let mut acc: u64 = 0;
    let mut i = lo;
    while i < hi
        invariant
            lo <= i <= hi <= s.len(),
            t == s@.subrange(lo as int, hi as int),
            forall|k: int| lo <= k < i ==> is_digit(#[trigger] s@[k]),
            acc == digits_value(s@.subrange(lo as int, i as int)),
        decreases hi - i,
    {
        let c = s[i];
        proof {
            assert(s@.subrange(lo as int, i + 1).drop_last() =~= s@.subrange(lo as int, i as int));
        }
        if !('0' <= c && c <= '9') {
            proof {
                assert(t[i - lo] == c);
            }
            return None;
        }
        let d = (c as u32 - '0' as u32) as u64;
        if acc > (u64::MAX - d) / 10 {
            proof {
                assert forall|k: int| 0 <= k < i + 1 - lo implies is_digit(
                    #[trigger] s@.subrange(lo as int, i + 1)[k],
                ) by {
                    assert(s@.subrange(lo as int, i + 1)[k] == s@[lo + k]);
                }
                assert(digits_value(s@.subrange(lo as int, i + 1)) > u64::MAX) by (nonlinear_arith)
                    requires
                        acc > (u64::MAX - d) / 10,
                        digits_value(s@.subrange(lo as int, i + 1)) == acc * 10 + d,
                        0 <= d <= 9;
                if is_digits(t) {
                    assert(t.take(i + 1 - lo) =~= s@.subrange(lo as int, i + 1));
                    lemma_digits_value_prefix(t, i + 1 - lo);
                }
            }
            return None;
        }
        acc = acc * 10 + d;
        i = i + 1;
    }
    proof {
        assert(s@.subrange(lo as int, i as int) =~= t);
    }
    Some(acc)
}

/// The signed number that `s[lo..hi]` writes in decimal, where it is one that
/// fits in an `i64`.
pub fn parse_int(s: &Vec<char>, lo: usize, hi: usize) -> (r: Option<i64>)
    requires
        lo <= hi <= s.len(),
    ensures
        r is Some <==> is_int(s@.subrange(lo as int, hi as int)) && i64::MIN <= int_value(
            s@.subrange(lo as int, hi as int),
        ) <= i64::MAX,
        r is Some ==> r->0 == int_value(s@.subrange(lo as int, hi as int)),
{
    let ghost t = s@.subrange(lo as int, hi as int);
    if lo < hi && (s[lo] == '-' || s[lo] == '+') {
        let neg = s[lo] == '-';
        proof {
            assert(t.drop_first() =~= s@.subrange(lo + 1, hi as int));
        }
        match parse_digits(s, lo + 1, hi) {
            Some(m) => {
                if neg {
                    if m <= 9223372036854775808 {
                        Some((0 - m as i128) as i64)
                    } else {
                        None
                    }
                } else {
                    if m <= 9223372036854775807 {
                        Some(m as i64)
                    } else {
                        None
                    }
                }
            },
            None => {
                proof {
                    if is_digits(t.drop_first()) {
                        assert(digits_value(t.drop_first()) > u64::MAX);
                    }
                }
                None
            },
        }
    } else {
        match parse_digits(s, lo, hi) {
            Some(m) => {
                if m <= 9223372036854775807 {
                    Some(m as i64)
                } else {
                    None
                }
            },
            None => None,
        }
    }
}

/// Relies on `String::push`: appends one character to the string.
#[verifier::external_body]
fn push_char(s: &mut String, c: char)
    ensures
        final(s)@ == old(s)@.push(c),
{
    s.push(c)
}

/// The string made of the characters of `v[lo..hi]`.
pub fn string_of_range(v: &Vec<char>, lo: usize, hi: usize) -> (r: String)
    requires
        lo <= hi <= v.len(),
    ensures
        r@ == v@.subrange(lo as int, hi as int),
{
    let mut r = String::new();
    let mut i = lo;
    while i < hi
        invariant
            lo <= i <= hi <= v.len(),
            r@ == v@.subrange(lo as int, i as int),
        decreases hi - i,
    {
        push_char(&mut r, v[i]);
        assert(r@ =~= v@.subrange(lo as int, i + 1));
        i = i + 1;
    }
    r
}

/// The string made of the characters of `v`.
pub fn string_of(v: &Vec<char>) -> (r: String)
    ensures
        r@ == v@,
{
    let r = string_of_range(v, 0, v.len());
    assert(v@.subrange(0, v.len() as int) =~= v@);
    r
}

/// The number of decimal digits that `s` starts with.
pub open spec fn digit_run(s: Seq<char>) -> nat
    decreases s.len(),
{
    if s.len() > 0 && is_digit(s[0]) {
        1 + digit_run(s.drop_first())
    } else {
        0
    }
}

pub proof fn lemma_digit_run(s: Seq<char>, k: int)
    requires
        0 <= k <= s.len(),
        forall|i: int| 0 <= i < k ==> is_digit(#[trigger] s[i]),
        k == s.len() || !is_digit(s[k]),
    ensures
        digit_run(s) == k,
    decreases k,
{
    if k > 0 {
        lemma_digit_run(s.drop_first(), k - 1);
    }
}

/// The number that `s` starts with, in decimal digits, and the text after it;
/// `None` where `s` starts with no digit or the number exceeds `usize`.
pub open spec fn leading_number(s: Seq<char>) -> Option<(nat, Seq<char>)> {
    let k = digit_run(s) as int;
    if k > 0 && digits_value(s.take(k)) <= usize::MAX {
        Some((digits_value(s.take(k)), s.skip(k)))
    } else {
        None
    }
}

/// The text after `t` where `s` starts with `t`.
pub open spec fn after_tag(s: Seq<char>, t: Seq<char>) -> Option<Seq<char>> {
    if t.len() <= s.len() && s.take(t.len() as int) == t {
        Some(s.skip(t.len() as int))
    } else {
        None
    }
}

/// Reads the number that `s[pos..]` starts with; returns it with the position
/// after its last digit.
pub fn number_at(s: &Vec<char>, pos: usize) -> (r: Option<(usize, usize)>)
    requires
        pos <= s.len(),
    ensures
        match r {
            Some((v, e)) => pos <= e <= s.len() && leading_number(s@.skip(pos as int)) == Some(
                (v as nat, s@.skip(e as int)),
            ),
            None => leading_number(s@.skip(pos as int)) is None,
        },
{
    let mut j = pos;
    while j < s.len() && '0' <= s[j] && s[j] <= '9'
        invariant
            pos <= j <= s.len(),
            forall|i: int| pos <= i < j ==> is_digit(#[trigger] s@[i]),
        decreases s.len() - j,
    {
        j = j + 1;
    }
    let ghost t = s@.skip(pos as int);
    proof {
        assert forall|i: int| 0 <= i < j - pos implies is_digit(#[trigger] t[i]) by {
            assert(t[i] == s@[pos + i]);
        }
        lemma_digit_run(t, j - pos);
        assert(t.take(j - pos) =~= s@.subrange(pos as int, j as int));
        assert(t.skip(j - pos) =~= s@.skip(j as int));
    }
    if j == pos {
        return None;
    }
    match parse_digits(s, pos, j) {
        Some(v) => {
            if v <= usize::MAX as u64 {
                Some((v as usize, j))
            } else {
                None
            }
        },
        None => None,
    }
}

/// Whether `s[pos..]` starts with `t`; where it does, the position after it.
pub fn tag_at(s: &Vec<char>, pos: usize, t: &str) -> (r: Option<usize>)
    requires
        pos <= s.len(),
    ensures
        r is Some <==> after_tag(s@.skip(pos as int), t@) is Some,
        r is Some ==> pos <= r->0 <= s.len() && after_tag(s@.skip(pos as int), t@) == Some(
            s@.skip(r->0 as int),
        ),
{
    let tv = chars_of(t);
    let ghost u = s@.skip(pos as int);
    if tv.len() > s.len() - pos {
        return None;
    }
    let mut i: usize = 0;
    while i < tv.len()
        invariant
            i <= tv.len(),
            tv@ == t@,
            pos + tv.len() <= s.len(),
            u == s@.skip(pos as int),
            forall|k: int| 0 <= k < i ==> s@[pos + k] == tv@[k],
        decreases tv.len() - i,
    {
        if s[pos + i] != tv[i] {
            proof {
                assert(u.take(tv.len() as int)[i as int] != tv@[i as int]);
            }
            return None;
        }
        i = i + 1;
    }
    proof {
        assert(u.take(tv.len() as int) =~= tv@);
        assert(u.skip(tv.len() as int) =~= s@.skip(pos + tv.len()));
    }
    Some(pos + tv.len())
}

/// A copy of `v[lo..hi]`.
pub fn copy_range(v: &Vec<char>, lo: usize, hi: usize) -> (r: Vec<char>)
    requires
        lo <= hi <= v.len(),
    ensures
        r@ == v@.subrange(lo as int, hi as int),
{
    let mut r: Vec<char> = Vec::new();
    let mut i = lo;
    while i < hi
        invariant
            lo <= i <= hi <= v.len(),
            r@ == v@.subrange(lo as int, i as int),
        decreases hi - i,
    {
        r.push(v[i]);
        assert(r@ =~= v@.subrange(lo as int, i + 1));
        i = i + 1;
    }
    r
}

/// The lines of the text `s`, each trimmed of surrounding whitespace.
pub fn trimmed_lines(s: &Vec<char>) -> (r: Vec<Vec<char>>)
    ensures
        r@.map_values(|l: Vec<char>| l@) == split(s@, '\n').map_values(|l: Seq<char>| trim(l)),
{
    let lines = split_chars(s, '\n');
    let ghost ls = lines@.map_values(|l: Vec<char>| l@);
    let mut r: Vec<Vec<char>> = Vec::new();
    let mut i: usize = 0;
    while i < lines.len()
        invariant
            i <= lines.len(),
            ls == lines@.map_values(|l: Vec<char>| l@),
            ls == split(s@, '\n'),
            r@.map_values(|l: Vec<char>| l@) == ls.take(i as int).map_values(|l: Seq<char>| trim(l)),
        decreases lines.len() - i,
    {
        let line = &lines[i];
        assert(line@ == ls[i as int]);
        let (a, b) = trim_range(line, 0, line.len());
        assert(line@.subrange(0, line.len() as int) =~= line@);
        let t = copy_range(line, a, b);
        let ghost old_r = r@;
        let ghost tv = t@;
        proof {
            assert(old_r.map_values(|l: Vec<char>| l@).len() == old_r.len());
            assert(old_r.len() == i);
            assert(tv == trim(ls[i as int]));
        }
        r.push(t);
        proof {
            assert(r@ == old_r.push(t));
            assert forall|k: int| 0 <= k < i + 1 implies (#[trigger] r@[k])@ == trim(ls[k]) by {
                if k < i {
                    assert(r@[k] == old_r[k]);
                    assert(old_r.map_values(|l: Vec<char>| l@)[k] == ls.take(i as int).map_values(
                        |l: Seq<char>| trim(l),
                    )[k]);
                }
            }
            assert(r@.map_values(|l: Vec<char>| l@) =~= ls.take(i + 1).map_values(
                |l: Seq<char>| trim(l),
            ));
        }
        i = i + 1;
    }
    assert(ls.take(lines.len() as int) =~= ls);
    r
}

/// The signed decimal that `s` starts with, and the text after it; `None`
/// where there is none or it does not fit in an `i64`.
pub open spec fn leading_int(s: Seq<char>) -> Option<(int, Seq<char>)> {
    if s.len() > 0 && s[0] == '-' {
        match leading_number(s.skip(1)) {
            Some((v, rest)) => if v <= 0x8000_0000_0000_0000 {
                Some((-v, rest))
            } else {
                None
            },
            None => None,
        }
    } else {
        match leading_number(s) {
            Some((v, rest)) => if v <= i64::MAX {
                Some((v as int, rest))
            } else {
                None
            },
            None => None,
        }
    }
}

/// Reads the signed decimal that `s[pos..]` starts with; returns it with the
/// position after it.
pub fn int_at(s: &Vec<char>, pos: usize) -> (r: Option<(i64, usize)>)
    requires
        pos <= s.len(),
    ensures
        match r {
            Some((v, e)) => pos <= e <= s.len() && leading_int(s@.skip(pos as int)) == Some(
                (v as int, s@.skip(e as int)),
            ),
            None => leading_int(s@.skip(pos as int)) is None,
        },
{
    if pos < s.len() && s[pos] == '-' {
        assert(s@.skip(pos as int).skip(1) =~= s@.skip(pos + 1));
        match number_at(s, pos + 1) {
            Some((v, e)) => {
                if v as u128 <= 0x8000_0000_0000_0000 {
                    Some(((0 - v as i128) as i64, e))
                } else {
                    None
                }
            },
            None => None,
        }
    } else {
        match number_at(s, pos) {
            Some((v, e)) => {
                if v as u128 <= 0x7fff_ffff_ffff_ffff {
                    Some((v as i64, e))
                } else {
                    None
                }
            },
            None => None,
        }
    }
}

} // verus!
