//! Small verified helpers on text: string equality, splitting a line on
//! commas, joining parts with commas, and decimal parsing and rendering.
//! The split/join round-trip lemmas here underpin the row codec.

use vstd::prelude::*;
use vstd::string::StrSliceExecFns;
use vstd::string::StringExecFns;

verus! {

/// Whether `c` has the Unicode white-space property, the set that
/// std's `str::trim` strips.
pub open spec fn is_space(c: char) -> bool {
    let u = c as u32;
    ||| (9 <= u && u <= 13)
    ||| u == 32
    ||| u == 0x85
    ||| u == 0xa0
    ||| u == 0x1680
    ||| (0x2000 <= u && u <= 0x200a)
    ||| u == 0x2028
    ||| u == 0x2029
    ||| u == 0x202f
    ||| u == 0x205f
    ||| u == 0x3000
}

fn is_space_exec(c: char) -> (r: bool)
    ensures
        r == is_space(c),
{
    let u = c as u32;
    (9 <= u && u <= 13) || u == 32 || u == 0x85 || u == 0xa0 || u == 0x1680 || (0x2000 <= u && u
        <= 0x200a) || u == 0x2028 || u == 0x2029 || u == 0x202f || u == 0x205f || u == 0x3000
}

/// The string without its leading white space.
pub open spec fn trim_start_spec(s: Seq<char>) -> Seq<char>
    decreases s.len(),
{
    if s.len() > 0 && is_space(s[0]) {
        trim_start_spec(s.drop_first())
    } else {
        s
    }
}

/// The string without its trailing white space.
pub open spec fn trim_end_spec(s: Seq<char>) -> Seq<char>
    decreases s.len(),
{
    if s.len() > 0 && is_space(s.last()) {
        trim_end_spec(s.drop_last())
    } else {
        s
    }
}

/// The string without leading and trailing white space.
pub open spec fn trim_spec(s: Seq<char>) -> Seq<char> {
    trim_end_spec(trim_start_spec(s))
}

/// Trimming a string without white space at either end changes nothing.
pub proof fn lemma_trim_identity(s: Seq<char>)
    requires
        s.len() > 0 ==> !is_space(s[0]) && !is_space(s.last()),
    ensures
        trim_spec(s) == s,
{
}

/// Strips leading and trailing white space.
pub fn trim(s: &str) -> (r: String)
    ensures
        r@ == trim_spec(s@),
{
    let n = s.unicode_len();
    let mut i: usize = 0;
    proof {
        assert(s@.subrange(0, n as int) =~= s@);
    }
    while i < n && is_space_exec(s.get_char(i))
        invariant
            i <= n,
            n == s@.len(),
            trim_start_spec(s@) == trim_start_spec(s@.subrange(i as int, n as int)),
        decreases n - i,
    {
        proof {
            let sub = s@.subrange(i as int, n as int);
            assert(sub[0] == s@[i as int]);
            assert(sub.drop_first() =~= s@.subrange(i + 1, n as int));
        }
        i = i + 1;
    }
    proof {
        let sub = s@.subrange(i as int, n as int);
        if i < n {
            assert(sub[0] == s@[i as int]);
        }
        assert(trim_start_spec(sub) == sub);
    }
    let mut j: usize = n;
    while j > i && is_space_exec(s.get_char(j - 1))
        invariant
            i <= j <= n,
            n == s@.len(),
            trim_start_spec(s@) == s@.subrange(i as int, n as int),
            trim_end_spec(s@.subrange(i as int, n as int)) == trim_end_spec(
                s@.subrange(i as int, j as int),
            ),
        decreases j,
    {
        proof {
            let sub = s@.subrange(i as int, j as int);
            assert(sub.last() == s@[j - 1]);
            assert(sub.drop_last() =~= s@.subrange(i as int, j - 1));
        }
        j = j - 1;
    }
    proof {
        let sub = s@.subrange(i as int, j as int);
        if j > i {
            assert(sub.last() == s@[j - 1]);
        }
        assert(trim_end_spec(sub) == sub);
    }
    s.substring_char(i, j).to_owned()
}

/// Whether two string slices hold the same characters.
pub fn str_eq(a: &str, b: &str) -> (r: bool)
    ensures
        r == (a@ == b@),
{
    let sa = a.to_owned();
    let sb = b.to_owned();
    sa == sb
}

/// True when no character of `s` is the field delimiter.
pub open spec fn no_comma(s: Seq<char>) -> bool {
    forall|i: int| 0 <= i < s.len() ==> s[i] != ','
}

/// Splitting from the front with `cur` the part read so far.
pub open spec fn split_rec(s: Seq<char>, cur: Seq<char>) -> Seq<Seq<char>>
    decreases s.len(),
{
    if s.len() == 0 {
        seq![cur]
    } else if s[0] == ',' {
        seq![cur] + split_rec(s.subrange(1, s.len() as int), Seq::empty())
    } else {
        split_rec(s.subrange(1, s.len() as int), cur.push(s[0]))
    }
}

/// The parts of `s` between its commas, in order. Splitting the empty
/// string gives one empty part.
pub open spec fn split_commas(s: Seq<char>) -> Seq<Seq<char>> {
    split_rec(s, Seq::empty())
}

/// The parts joined with one comma between neighbours.
pub open spec fn join_commas(parts: Seq<Seq<char>>) -> Seq<char>
    decreases parts.len(),
{
    if parts.len() == 0 {
        Seq::empty()
    } else if parts.len() == 1 {
        parts[0]
    } else {
        parts[0] + seq![','] + join_commas(parts.subrange(1, parts.len() as int))
    }
}

pub proof fn lemma_split_rec_len(s: Seq<char>, cur: Seq<char>)
    ensures
        split_rec(s, cur).len() >= 1,
    decreases s.len(),
{
    if s.len() == 0 {
    } else if s[0] == ',' {
    } else {
        lemma_split_rec_len(s.subrange(1, s.len() as int), cur.push(s[0]));
    }
}

/// Appending one more part to a join adds one comma and the part.
pub proof fn lemma_join_push(parts: Seq<Seq<char>>, x: Seq<char>)
    ensures
        join_commas(parts.push(x)) == (if parts.len() == 0 {
            x
        } else {
            join_commas(parts) + seq![','] + x
        }),
    decreases parts.len(),
{
    let p2 = parts.push(x);
    if parts.len() == 0 {
        assert(p2 =~= seq![x]);
    } else {
        assert(p2.subrange(1, p2.len() as int) =~= parts.subrange(
            1,
            parts.len() as int,
        ).push(x));
        lemma_join_push(parts.subrange(1, parts.len() as int), x);
        if parts.len() == 1 {
            assert(parts.subrange(1, 1) =~= Seq::<Seq<char>>::empty());
            assert(p2.subrange(1, 2) =~= seq![x]);
            assert(join_commas(p2) == parts[0] + seq![','] + x);
        } else {
            assert((parts[0] + seq![',']) + (join_commas(parts.subrange(1, parts.len() as int))
                + seq![','] + x) =~= ((parts[0] + seq![','] + join_commas(
                parts.subrange(1, parts.len() as int),
            )) + seq![','] + x));
        }
    }
}

/// Joining what splitting produced restores the string.
pub proof fn lemma_join_split_rec(s: Seq<char>, cur: Seq<char>)
    ensures
        join_commas(split_rec(s, cur)) == cur + s,
    decreases s.len(),
{
    if s.len() == 0 {
        assert(cur + s =~= cur);
    } else if s[0] == ',' {
        let rest = s.subrange(1, s.len() as int);
        lemma_join_split_rec(rest, Seq::empty());
        lemma_split_rec_len(rest, Seq::empty());
        let tail = split_rec(rest, Seq::empty());
        let whole = seq![cur] + tail;
        assert(whole.subrange(1, whole.len() as int) =~= tail);
        assert(Seq::empty() + rest =~= rest);
        assert(cur + seq![','] + rest =~= cur + s);
    } else {
        let rest = s.subrange(1, s.len() as int);
        lemma_join_split_rec(rest, cur.push(s[0]));
        assert(cur.push(s[0]) + rest =~= cur + s);
    }
}

/// A comma-free string splits into exactly one part.
pub proof fn lemma_split_rec_no_comma(s: Seq<char>, cur: Seq<char>)
    requires
        no_comma(s),
    ensures
        split_rec(s, cur) == seq![cur + s],
    decreases s.len(),
{
    if s.len() == 0 {
        assert(cur + s =~= cur);
        assert(seq![cur + s] =~= seq![cur]);
    } else {
        let rest = s.subrange(1, s.len() as int);
        lemma_split_rec_no_comma(rest, cur.push(s[0]));
        assert(cur.push(s[0]) + rest =~= cur + s);
        assert(seq![cur.push(s[0]) + rest] =~= seq![cur + s]);
    }
}

/// Splitting `a , rest` with `a` comma-free peels off `cur + a`.
pub proof fn lemma_split_rec_comma(a: Seq<char>, rest: Seq<char>, cur: Seq<char>)
    requires
        no_comma(a),
    ensures
        split_rec(a + seq![','] + rest, cur) == seq![cur + a] + split_rec(rest, Seq::empty()),
    decreases a.len(),
{
    let s = a + seq![','] + rest;
    if a.len() == 0 {
        assert(s[0] == ',');
        assert(s.subrange(1, s.len() as int) =~= rest);
        assert(cur + a =~= cur);
        assert(seq![cur + a] =~= seq![cur]);
    } else {
        assert(s[0] == a[0]);
        let a1 = a.subrange(1, a.len() as int);
        assert(no_comma(a1));
        assert(s.subrange(1, s.len() as int) =~= a1 + seq![','] + rest);
        lemma_split_rec_comma(a1, rest, cur.push(a[0]));
        assert(cur.push(a[0]) + a1 =~= cur + a);
        assert(seq![cur.push(a[0]) + a1] + split_rec(rest, Seq::empty()) =~= seq![cur + a]
            + split_rec(rest, Seq::empty()));
    }
}

/// Splitting what joining produced restores the parts, provided each part
/// is comma-free and there is at least one part.
pub proof fn lemma_split_join(parts: Seq<Seq<char>>)
    requires
        parts.len() >= 1,
        forall|i: int| 0 <= i < parts.len() ==> no_comma(#[trigger] parts[i]),
    ensures
        split_commas(join_commas(parts)) == parts,
    decreases parts.len(),
{
    if parts.len() == 1 {
        lemma_split_rec_no_comma(parts[0], Seq::empty());
        assert(Seq::empty() + parts[0] =~= parts[0]);
        assert(seq![Seq::empty() + parts[0]] =~= parts);
    } else {
        let rest = parts.subrange(1, parts.len() as int);
        lemma_split_join(rest);
        lemma_split_rec_comma(parts[0], join_commas(rest), Seq::empty());
        assert(Seq::empty() + parts[0] =~= parts[0]);
        assert(seq![Seq::empty() + parts[0]] + split_commas(join_commas(rest)) =~= seq![parts[0]]
            + rest);
        assert(seq![parts[0]] + rest =~= parts);
    }
}

/// Splits a line on commas. Splitting the empty string gives one empty part.
pub fn split_line(s: &str) -> (parts: Vec<String>)
    ensures
        parts.deep_view() == split_commas(s@),
{
    let n = s.unicode_len();
    let mut parts: Vec<String> = Vec::new();
    let mut start: usize = 0;
    let mut i: usize = 0;
    proof {
        assert(s@.subrange(0, n as int) =~= s@);
        assert(parts.deep_view() =~= Seq::<Seq<char>>::empty());
        assert(parts.deep_view() + split_rec(s@, Seq::empty()) =~= split_rec(s@, Seq::empty()));
        assert(s@.subrange(0, 0) =~= Seq::<char>::empty());
    }
    while i < n
        invariant
            i <= n,
            start <= i,
            n == s@.len(),
            split_commas(s@) == parts.deep_view() + split_rec(
                s@.subrange(i as int, n as int),
                s@.subrange(start as int, i as int),
            ),
        decreases n - i,
    {
        let c = s.get_char(i);
        let ghost rem = s@.subrange(i as int, n as int);
        let ghost tok = s@.subrange(start as int, i as int);
        assert(rem[0] == s@[i as int]);
        assert(rem.subrange(1, rem.len() as int) =~= s@.subrange(i + 1, n as int));
        if c == ',' {
            let piece = s.substring_char(start, i).to_owned();
            proof {
                assert(split_rec(rem, tok) == seq![tok] + split_rec(
                    s@.subrange(i + 1, n as int),
                    Seq::empty(),
                ));
                assert(s@.subrange((i + 1) as int, (i + 1) as int) =~= Seq::<char>::empty());
            }
            let ghost old_parts = parts.deep_view();
            parts.push(piece);
            proof {
                assert(parts.deep_view() =~= old_parts.push(tok));
                assert(old_parts.push(tok) + split_rec(
                    s@.subrange(i + 1, n as int),
                    Seq::empty(),
                ) =~= old_parts + (seq![tok] + split_rec(
                    s@.subrange(i + 1, n as int),
                    Seq::empty(),
                )));
            }
            start = i + 1;
        } else {
            proof {
                assert(split_rec(rem, tok) == split_rec(
                    s@.subrange(i + 1, n as int),
                    tok.push(s@[i as int]),
                ));
                assert(tok.push(s@[i as int]) =~= s@.subrange(start as int, i + 1));
            }
        }
        i = i + 1;
    }
    let piece = s.substring_char(start, n).to_owned();
    let ghost tok = s@.subrange(start as int, n as int);
    proof {
        assert(s@.subrange(n as int, n as int) =~= Seq::<char>::empty());
        assert(split_rec(Seq::empty(), tok) == seq![tok]);
    }
    let ghost old_parts = parts.deep_view();
    parts.push(piece);
    proof {
        assert(parts.deep_view() =~= old_parts.push(tok));
        assert(old_parts.push(tok) =~= old_parts + seq![tok]);
    }
    parts
}

/// Joins parts with one comma between neighbours.
pub fn join_line(parts: &Vec<String>) -> (r: String)
    ensures
        r@ == join_commas(parts.deep_view()),
{
    let mut r = String::new();
    let n = parts.len();
    let mut i: usize = 0;
    while i < n
        invariant
            i <= n,
            n == parts.len(),
            r@ == join_commas(parts.deep_view().subrange(0, i as int)),
        decreases n - i,
    {
        let ghost prefix = parts.deep_view().subrange(0, i as int);
        if i > 0 {
            r.append(",");
            proof {
                reveal_strlit(",");
            }
        }
        r.append(parts[i].as_str());
        proof {
            lemma_join_push(prefix, parts.deep_view()[i as int]);
            assert(prefix.push(parts.deep_view()[i as int]) =~= parts.deep_view().subrange(
                0,
                i + 1,
            ));
            if i > 0 {
                assert(","@ =~= seq![',']);
            }
        }
        i = i + 1;
    }
    proof {
        assert(parts.deep_view().subrange(0, n as int) =~= parts.deep_view());
    }
    r
}

/// Whether `c` is a decimal digit.
pub open spec fn is_dec_digit(c: char) -> bool {
    '0' <= c && c <= '9'
}

/// The value of a decimal digit.
pub open spec fn dec_digit_val(c: char) -> int {
    c as u32 - 48
}

/// The decimal digit with value `d`.
pub open spec fn dec_digit_char(d: int) -> char {
    ((48 + d) as u8) as char
}

pub open spec fn all_dec_digits(s: Seq<char>) -> bool {
    forall|i: int| 0 <= i < s.len() ==> is_dec_digit(#[trigger] s[i])
}

/// The number that a digit string denotes.
pub open spec fn dec_val(s: Seq<char>) -> int
    decreases s.len(),
{
    if s.len() == 0 {
        0
    } else {
        dec_val(s.drop_last()) * 10 + dec_digit_val(s.last())
    }
}

/// The canonical digit string of a number: no leading zeroes, except that
/// zero itself is one digit.
pub open spec fn dec_chars(n: nat) -> Seq<char>
    decreases n,
{
    if n < 10 {
        seq![dec_digit_char(n as int)]
    } else {
        dec_chars(n / 10).push(dec_digit_char((n % 10) as int))
    }
}

pub proof fn lemma_dec_val_nonneg(s: Seq<char>)
    requires
        all_dec_digits(s),
    ensures
        dec_val(s) >= 0,
    decreases s.len(),
{
    if s.len() > 0 {
        assert(all_dec_digits(s.drop_last()));
        lemma_dec_val_nonneg(s.drop_last());
    }
}

/// A digit string's value only grows as the string extends.
pub proof fn lemma_dec_val_prefix(s: Seq<char>, i: int)
    requires
        all_dec_digits(s),
        0 <= i <= s.len(),
    ensures
        dec_val(s.subrange(0, i)) <= dec_val(s),
    decreases s.len() - i,
{
    if i < s.len() {
        let t = s.subrange(0, s.len() - 1);
        assert(all_dec_digits(t));
        assert(t =~= s.drop_last());
        lemma_dec_val_nonneg(t);
        lemma_dec_val_prefix(t, i);
        assert(t.subrange(0, i) =~= s.subrange(0, i));
    } else {
        assert(s.subrange(0, i) =~= s);
    }
}

/// The canonical digit string denotes the number it was made from.
pub proof fn lemma_dec_chars_val(n: nat)
    ensures
        all_dec_digits(dec_chars(n)),
        dec_val(dec_chars(n)) == n,
        dec_chars(n).len() >= 1,
    decreases n,
{
    if n < 10 {
        assert(dec_digit_val(dec_digit_char(n as int)) == n);
        assert(dec_chars(n) =~= seq![dec_digit_char(n as int)]);
        assert(dec_chars(n).drop_last() =~= Seq::<char>::empty());
        assert(dec_val(Seq::<char>::empty()) == 0);
        assert(dec_chars(n).last() == dec_digit_char(n as int));
        assert(dec_val(dec_chars(n)) == n);
        assert(all_dec_digits(dec_chars(n)));
    } else {
        lemma_dec_chars_val(n / 10);
        let s = dec_chars(n);
        assert(s.drop_last() =~= dec_chars(n / 10));
        assert(0 <= n % 10 < 10);
        assert(dec_digit_val(dec_digit_char((n % 10) as int)) == n % 10);
        assert(dec_val(s) == (n / 10) * 10 + n % 10);
        assert((n / 10) * 10 + n % 10 == n) by (nonlinear_arith);
    }
}

/// Parses a decimal digit string; `None` when the string is empty, holds a
/// non-digit, or denotes a value above `u128::MAX`.
pub fn parse_u128(s: &str) -> (r: Option<u128>)
    ensures
        r matches Some(v) ==> s@.len() >= 1 && all_dec_digits(s@) && dec_val(s@) == v,
        r is None ==> !(s@.len() >= 1 && all_dec_digits(s@) && dec_val(s@) <= u128::MAX),
{
    let n = s.unicode_len();
    if n == 0 {
        return None;
    }
    let mut acc: u128 = 0;
    let mut i: usize = 0;
    proof {
        assert(s@.subrange(0, 0) =~= Seq::<char>::empty());
    }
    while i < n
        invariant
            i <= n,
            n == s@.len(),
            all_dec_digits(s@.subrange(0, i as int)),
            acc == dec_val(s@.subrange(0, i as int)),
        decreases n - i,
    {
        let c = s.get_char(i);
        let cu = c as u32;
        let ghost pre = s@.subrange(0, i as int);
        let ghost ext = s@.subrange(0, i + 1);
        assert(ext.drop_last() =~= pre);
        assert(ext.last() == s@[i as int]);
        if cu < 48 || cu > 57 {
            assert(!is_dec_digit(s@[i as int]));
            return None;
        }
        assert(all_dec_digits(ext));
        let d = (cu - 48) as u128;
        let step = match acc.checked_mul(10) {
            Some(m) => m.checked_add(d),
            None => None,
        };
        match step {
            Some(v) => {
                acc = v;
            },
            None => {
                proof {
                    if all_dec_digits(s@) {
                        lemma_dec_val_prefix(s@, i + 1);
                    }
                }
                return None;
            },
        }
        i = i + 1;
    }
    proof {
        assert(s@.subrange(0, n as int) =~= s@);
    }
    Some(acc)
}

/// One-character slice for a decimal digit.
fn dec_digit_str(d: u8) -> (s: &'static str)
    requires
        d < 10,
    ensures
        s@ =~= seq![dec_digit_char(d as int)],
{
    proof {
        reveal_strlit("0");
        reveal_strlit("1");
        reveal_strlit("2");
        reveal_strlit("3");
        reveal_strlit("4");
        reveal_strlit("5");
        reveal_strlit("6");
        reveal_strlit("7");
        reveal_strlit("8");
        reveal_strlit("9");
    }
    match d {
        0 => "0",
        1 => "1",
        2 => "2",
        3 => "3",
        4 => "4",
        5 => "5",
        6 => "6",
        7 => "7",
        8 => "8",
        _ => "9",
    }
}

/// Renders a number as its canonical decimal digit string.
pub fn u128_to_string(v: u128) -> (r: String)
    ensures
        r@ == dec_chars(v as nat),
{
    if v == 0 {
        let r = dec_digit_str(0).to_owned();
        return r;
    }
    let mut n = v;
    let mut acc = String::new();
    while n > 0
        invariant
            n > 0 ==> dec_chars(v as nat) == dec_chars(n as nat) + acc@,
            n == 0 ==> dec_chars(v as nat) == acc@,
        decreases n,
    {
        let d = (n % 10) as u8;
        let rest = n / 10;
        let ghost old_acc = acc@;
        let digit = dec_digit_str(d).to_owned();
        let next = digit.concat(acc.as_str());
        acc = next;
        proof {
            if rest > 0 {
                assert(dec_chars(n as nat) =~= dec_chars(rest as nat) + seq![dec_digit_char(
                    (n % 10) as int,
                )]);
                assert(dec_chars(rest as nat) + (seq![dec_digit_char((n % 10) as int)] + old_acc)
                    =~= (dec_chars(rest as nat) + seq![dec_digit_char((n % 10) as int)])
                    + old_acc);
            } else {
                assert(n < 10);
                assert(dec_chars(n as nat) =~= seq![dec_digit_char((n % 10) as int)]);
            }
        }
        n = rest;
    }
    acc
}

} // verus!
