//! Byte-exact framing of a snapshot as the one-line JSON object
//! `{"cpus":[...],"sentences":[...]}` that subscribers receive, and the
//! parser for the same format.
use vstd::prelude::*;

use crate::corpus::views_of;
use crate::snapshot::SnapView;
use crate::snapshot::Snapshot;

verus! {

/// Decimal digits of `n`, most significant first; empty for zero.
pub open spec fn dec_rec(n: nat) -> Seq<u8>
    decreases n,
{
    if n == 0 {
        Seq::empty()
    } else {
        dec_rec(n / 10).push((48 + n % 10) as u8)
    }
}

/// Decimal digits of `n`, most significant first; `0` is one digit.
pub open spec fn dec_digits(n: nat) -> Seq<u8> {
    if n == 0 {
        seq![48u8]
    } else {
        dec_rec(n)
    }
}

/// The four fractional digits of `f < 10000`, most significant first.
pub open spec fn frac4(f: nat) -> Seq<u8> {
    seq![
        (48 + f / 1000 % 10) as u8,
        (48 + f / 100 % 10) as u8,
        (48 + f / 10 % 10) as u8,
        (48 + f % 10) as u8,
    ]
}

/// Trailing zero digits removed, but never below one digit.
pub open spec fn trim_zeros(s: Seq<u8>) -> Seq<u8>
    decreases s.len(),
{
    if s.len() <= 1 {
        s
    } else if s.last() == 48 {
        trim_zeros(s.drop_last())
    } else {
        s
    }
}

/// The decimal text of a scaled utilization value: integer part, a dot, and
/// the fractional digits with trailing zeros trimmed. `100000` (ten percent)
/// reads `10.0`; `2` reads `0.0002`.
pub open spec fn num_text(n: nat) -> Seq<u8> {
    dec_digits(n / 10000) + seq![46u8] + trim_zeros(frac4(n % 10000))
}

/// Lower-case hexadecimal digit for `x < 16`.
pub open spec fn hex_digit(x: nat) -> u8 {
    if x < 10 {
        (48 + x) as u8
    } else {
        (87 + x) as u8
    }
}

/// How one byte of fragment text appears inside a JSON string.
pub open spec fn esc_byte(b: u8) -> Seq<u8> {
    if b == 34 {
        seq![92u8, 34u8]
    } else if b == 92 {
        seq![92u8, 92u8]
    } else if b == 10 {
        seq![92u8, 110u8]
    } else if b == 13 {
        seq![92u8, 114u8]
    } else if b == 9 {
        seq![92u8, 116u8]
    } else if b < 32 {
        seq![92u8, 117u8, 48u8, 48u8, hex_digit((b / 16) as nat), hex_digit((b % 16) as nat)]
    } else {
        seq![b]
    }
}

/// A fragment's bytes escaped for a JSON string body.
pub open spec fn esc(s: Seq<u8>) -> Seq<u8>
    decreases s.len(),
{
    if s.len() == 0 {
        Seq::empty()
    } else {
        esc(s.drop_last()) + esc_byte(s.last())
    }
}

/// A whole JSON string: the escaped body in quotes.
pub open spec fn str_json(s: Seq<u8>) -> Seq<u8> {
    seq![34u8] + esc(s) + seq![34u8]
}

/// The utilization values as a comma-separated JSON array body.
pub open spec fn nums_json(us: Seq<u32>) -> Seq<u8>
    decreases us.len(),
{
    if us.len() == 0 {
        Seq::empty()
    } else if us.len() == 1 {
        num_text(us[0] as nat)
    } else {
        nums_json(us.drop_last()) + seq![44u8] + num_text(us.last() as nat)
    }
}

/// The fragments as a comma-separated JSON array body.
pub open spec fn strs_json(fs: Seq<Seq<u8>>) -> Seq<u8>
    decreases fs.len(),
{
    if fs.len() == 0 {
        Seq::empty()
    } else if fs.len() == 1 {
        str_json(fs[0])
    } else {
        strs_json(fs.drop_last()) + seq![44u8] + str_json(fs.last())
    }
}

/// `{"cpus":[`
pub open spec fn lit_head() -> Seq<u8> {
    seq![123u8, 34u8, 99u8, 112u8, 117u8, 115u8, 34u8, 58u8, 91u8]
}

/// `],"sentences":[`
pub open spec fn lit_mid() -> Seq<u8> {
    seq![
        93u8, 44u8, 34u8, 115u8, 101u8, 110u8, 116u8, 101u8, 110u8, 99u8, 101u8, 115u8, 34u8,
        58u8, 91u8,
    ]
}

/// `]}`
pub open spec fn lit_tail() -> Seq<u8> {
    seq![93u8, 125u8]
}

/// The exact wire form of a snapshot: field names, order and digits are all
/// pinned down, byte for byte.
pub open spec fn snap_json(v: SnapView) -> Seq<u8> {
    lit_head() + nums_json(v.utils) + lit_mid() + strs_json(v.frags) + lit_tail()
}

fn push_dec(out: &mut Vec<u8>, n: u32)
    ensures
        final(out)@ == old(out)@ + dec_digits(n as nat),
{
    let ghost out0 = out@;
    if n == 0 {
        out.push(48);
        proof {
            assert(out@ =~= out0 + dec_digits(n as nat));
        }
        return ;
    }
    let mut tmp: Vec<u8> = Vec::new();
    let mut m: u32 = n;
    while m > 0
        invariant
            dec_rec(n as nat) == dec_rec(m as nat) + rev(tmp@),
        decreases m,
    {
        let d: u8 = 48 + (m % 10) as u8;
        proof {
            assert(tmp@.push(d).drop_last() =~= tmp@);
            assert(rev(tmp@.push(d)) == seq![d] + rev(tmp@));
            assert(dec_rec(m as nat) == dec_rec(m as nat / 10).push(d));
            assert(dec_rec(m as nat / 10).push(d) =~= dec_rec(m as nat / 10) + seq![d]);
            assert((dec_rec(m as nat / 10) + seq![d]) + rev(tmp@) =~= dec_rec(m as nat / 10) + (
            seq![d] + rev(tmp@)));
            assert(dec_rec(n as nat) == dec_rec(m as nat / 10) + rev(tmp@.push(d)));
        }
        tmp.push(d);
        m = m / 10;
    }
    while tmp.len() > 0
        invariant
            out@ + rev(tmp@) == out0 + dec_rec(n as nat),
        decreases tmp@.len(),
    {
        let ghost pre = tmp@;
        let ghost outpre = out@;
        let d = tmp.pop().unwrap();
        out.push(d);
        proof {
            assert(pre.drop_last() =~= tmp@);
            assert(rev(pre) == seq![d] + rev(tmp@));
            assert(outpre + (seq![d] + rev(tmp@)) =~= (outpre + seq![d]) + rev(tmp@));
            assert(out@ =~= outpre + seq![d]);
            assert(out@ + rev(tmp@) == out0 + dec_rec(n as nat));
        }
    }
    proof {
        assert(rev(tmp@) =~= Seq::<u8>::empty());
        assert(out@ + rev(tmp@) =~= out@);
        assert(out@ =~= out0 + dec_rec(n as nat));
    }
}

/// `s` reversed.
pub open spec fn rev(s: Seq<u8>) -> Seq<u8>
    decreases s.len(),
{
    if s.len() == 0 {
        s
    } else {
        seq![s.last()] + rev(s.drop_last())
    }
}

fn push_num(out: &mut Vec<u8>, n: u32)
    ensures
        final(out)@ == old(out)@ + num_text(n as nat),
{
    let ghost out0 = out@;
    push_dec(out, n / 10000);
    out.push(46);
    let f: u32 = n % 10000;
    let mut digits: Vec<u8> = vec![
        48 + (f / 1000 % 10) as u8,
        48 + (f / 100 % 10) as u8,
        48 + (f / 10 % 10) as u8,
        48 + (f % 10) as u8,
    ];
    proof {
        assert(digits@ =~= frac4(f as nat));
    }
    while digits.len() > 1 && digits[digits.len() - 1] == 48
        invariant
            digits@.len() >= 1,
            trim_zeros(digits@) == trim_zeros(frac4(f as nat)),
        decreases digits@.len(),
    {
        let ghost pre = digits@;
        digits.pop();
        proof {
            assert(digits@ =~= pre.drop_last());
        }
    }
    let mut i: usize = 0;
    let ghost mid = out@;
    proof {
        assert(trim_zeros(digits@) == digits@);
    }
    while i < digits.len()
        invariant
            i <= digits@.len(),
            out@ =~= mid + digits@.subrange(0, i as int),
        decreases digits@.len() - i,
    {
        out.push(digits[i]);
        i = i + 1;
    }
    proof {
        assert(digits@.subrange(0, digits@.len() as int) =~= digits@);
        assert(out@ =~= out0 + num_text(n as nat));
    }
}

fn push_escaped(out: &mut Vec<u8>, s: &Vec<u8>)
    ensures
        final(out)@ == old(out)@ + esc(s@),
{
    let ghost out0 = out@;
    let mut i: usize = 0;
    proof {
        assert(s@.subrange(0, 0) =~= Seq::<u8>::empty());
        assert(out@ =~= out0 + esc(s@.subrange(0, 0)));
    }
    while i < s.len()
        invariant
            i <= s@.len(),
            out@ == out0 + esc(s@.subrange(0, i as int)),
        decreases s@.len() - i,
    {
        let b = s[i];
        if b == 34 {
            out.push(92);
            out.push(34);
        } else if b == 92 {
            out.push(92);
            out.push(92);
        } else if b == 10 {
            out.push(92);
            out.push(110);
        } else if b == 13 {
            out.push(92);
            out.push(114);
        } else if b == 9 {
            out.push(92);
            out.push(116);
        } else if b < 32 {
            out.push(92);
            out.push(117);
            out.push(48);
            out.push(48);
            let hi = b / 16;
            let lo = b % 16;
            out.push(if hi < 10 { 48 + hi } else { 87 + hi });
            out.push(if lo < 10 { 48 + lo } else { 87 + lo });
        } else {
            out.push(b);
        }
        proof {
            let p = s@.subrange(0, i as int);
            let q = s@.subrange(0, i as int + 1);
            assert(q.drop_last() =~= p);
            assert(q.last() == s@[i as int]);
            assert(out@ =~= out0 + (esc(p) + esc_byte(s@[i as int])));
        }
        i = i + 1;
    }
    proof {
        assert(s@.subrange(0, s@.len() as int) =~= s@);
    }
}

/// Serializes a snapshot to its exact wire form.
pub fn encode_snapshot(snap: &Snapshot) -> (out: Vec<u8>)
    ensures
        out@ == snap_json(snap@),
{
    let mut out: Vec<u8> = Vec::new();
    out.push(123);
    out.push(34);
    out.push(99);
    out.push(112);
    out.push(117);
    out.push(115);
    out.push(34);
    out.push(58);
    out.push(91);
    proof {
        assert(out@ =~= lit_head());
    }
    let n = snap.len();
    let mut i: usize = 0;
    proof {
        assert(snap@.utils.subrange(0, 0) =~= Seq::<u32>::empty());
        assert(out@ =~= lit_head() + nums_json(snap@.utils.subrange(0, 0)));
    }
    while i < n
        invariant
            i <= snap@.utils.len(),
            n == snap@.utils.len(),
            n == snap@.frags.len(),
            out@ == lit_head() + nums_json(snap@.utils.subrange(0, i as int)),
        decreases n - i,
    {
        if i > 0 {
            out.push(44);
        }
        let u = snap.utilization(i);
        push_num(&mut out, u);
        proof {
            let p = snap@.utils.subrange(0, i as int);
            let q = snap@.utils.subrange(0, i as int + 1);
            assert(q.drop_last() =~= p);
            assert(q.last() == snap@.utils[i as int]);
            if i == 0 {
                assert(nums_json(q) == num_text(snap@.utils[0] as nat));
                assert(out@ =~= lit_head() + nums_json(q));
            } else {
                assert(nums_json(q) == nums_json(p) + seq![44u8] + num_text(q.last() as nat));
                assert(out@ =~= lit_head() + nums_json(q));
            }
        }
        i = i + 1;
    }
    proof {
        assert(snap@.utils.subrange(0, snap@.utils.len() as int) =~= snap@.utils);
    }
    let ghost head = out@;
    out.push(93);
    out.push(44);
    out.push(34);
    out.push(115);
    out.push(101);
    out.push(110);
    out.push(116);
    out.push(101);
    out.push(110);
    out.push(99);
    out.push(101);
    out.push(115);
    out.push(34);
    out.push(58);
    out.push(91);
    proof {
        assert(out@ =~= head + lit_mid());
    }
    let ghost mid = out@;
    let mut j: usize = 0;
    proof {
        assert(snap@.frags.subrange(0, 0) =~= Seq::<Seq<u8>>::empty());
        assert(out@ =~= mid + strs_json(snap@.frags.subrange(0, 0)));
    }
    while j < n
        invariant
            j <= snap@.frags.len(),
            n == snap@.frags.len(),
            out@ == mid + strs_json(snap@.frags.subrange(0, j as int)),
        decreases n - j,
    {
        if j > 0 {
            out.push(44);
        }
        out.push(34);
        let frag = snap.fragment(j);
        push_escaped(&mut out, frag);
        out.push(34);
        proof {
            let p = snap@.frags.subrange(0, j as int);
            let q = snap@.frags.subrange(0, j as int + 1);
            assert(q.drop_last() =~= p);
            assert(q.last() == snap@.frags[j as int]);
            assert(str_json(snap@.frags[j as int]) =~= seq![34u8] + esc(snap@.frags[j as int])
                + seq![34u8]);
            if j == 0 {
                assert(strs_json(q) == str_json(snap@.frags[0]));
                assert(out@ =~= mid + strs_json(q));
            } else {
                assert(strs_json(q) == strs_json(p) + seq![44u8] + str_json(q.last()));
                assert(out@ =~= mid + strs_json(q));
            }
        }
        j = j + 1;
    }
    proof {
        assert(snap@.frags.subrange(0, snap@.frags.len() as int) =~= snap@.frags);
    }
    out.push(93);
    out.push(125);
    proof {
        assert(out@ =~= snap_json(snap@));
    }
    out
}

proof fn lemma_dec_rec_digits(n: nat)
    ensures
        forall|j: int| 0 <= j < dec_rec(n).len() ==> 48 <= #[trigger] dec_rec(n)[j] <= 57,
    decreases n,
{
    if n > 0 {
        lemma_dec_rec_digits(n / 10);
        assert forall|j: int| 0 <= j < dec_rec(n).len() implies 48 <= #[trigger] dec_rec(n)[j] <= 57 by {
            if j < dec_rec(n).len() - 1 {
                assert(dec_rec(n)[j] == dec_rec(n / 10)[j]);
            } else {
                assert(dec_rec(n)[j] == (48 + n % 10) as u8);
            }
        }
    }
}

proof fn lemma_dec_rec_injective(a: nat, b: nat)
    requires
        dec_rec(a) == dec_rec(b),
    ensures
        a == b,
    decreases a,
{
    if a > 0 && b > 0 {
        assert(dec_rec(a / 10).push((48 + a % 10) as u8).drop_last() =~= dec_rec(a / 10));
        assert(dec_rec(b / 10).push((48 + b % 10) as u8).drop_last() =~= dec_rec(b / 10));
        lemma_dec_rec_injective(a / 10, b / 10);
        assert(dec_rec(a) == dec_rec(a / 10).push((48 + a % 10) as u8));
        assert(dec_rec(b) == dec_rec(b / 10).push((48 + b % 10) as u8));
        assert(dec_rec(a).last() == (48 + a % 10) as u8);
        assert(dec_rec(b).last() == (48 + b % 10) as u8);
        assert(dec_rec(a).last() == dec_rec(b).last());
        assert((48 + a % 10) as u8 == (48 + b % 10) as u8);
        assert(a % 10 == b % 10);
        assert(a == 10 * (a / 10) + a % 10);
        assert(b == 10 * (b / 10) + b % 10);
    } else if a > 0 {
        assert(dec_rec(a) == dec_rec(a / 10).push((48 + a % 10) as u8));
        assert(dec_rec(a).len() >= 1);
        assert(dec_rec(b).len() == 0);
        assert(false);
    } else if b > 0 {
        assert(dec_rec(b) == dec_rec(b / 10).push((48 + b % 10) as u8));
        assert(dec_rec(b).len() >= 1);
        assert(dec_rec(a).len() == 0);
        assert(false);
    }
}

proof fn lemma_dec_digits_injective(a: nat, b: nat)
    requires
        dec_digits(a) == dec_digits(b),
    ensures
        a == b,
{
    if a == 0 && b > 0 {
        assert(dec_rec(b) == dec_rec(b / 10).push((48 + b % 10) as u8));
        assert(dec_rec(b).len() == 1);
        assert(dec_rec(b / 10).len() == 0);
        if b / 10 > 0 {
            assert(dec_rec(b / 10) == dec_rec(b / 10 / 10).push((48 + (b / 10) % 10) as u8));
            assert(false);
        }
        assert(dec_rec(b).last() == (48 + b % 10) as u8);
        assert(dec_rec(b).last() == dec_digits(a).last());
        assert(b % 10 == 0);
        assert(b == 10 * (b / 10) + b % 10);
        assert(false);
    } else if b == 0 && a > 0 {
        assert(dec_rec(a) == dec_rec(a / 10).push((48 + a % 10) as u8));
        assert(dec_rec(a).len() == 1);
        assert(dec_rec(a / 10).len() == 0);
        if a / 10 > 0 {
            assert(dec_rec(a / 10) == dec_rec(a / 10 / 10).push((48 + (a / 10) % 10) as u8));
            assert(false);
        }
        assert(dec_rec(a).last() == (48 + a % 10) as u8);
        assert(dec_rec(a).last() == dec_digits(b).last());
        assert(a % 10 == 0);
        assert(a == 10 * (a / 10) + a % 10);
        assert(false);
    } else if a > 0 && b > 0 {
        lemma_dec_rec_injective(a, b);
    }
}

proof fn lemma_trim_pad(s: Seq<u8>)
    ensures
        trim_zeros(s).len() <= s.len(),
        trim_zeros(s) == s.subrange(0, trim_zeros(s).len() as int),
        forall|j: int| trim_zeros(s).len() <= j < s.len() ==> s[j] == 48,
    decreases s.len(),
{
    if s.len() <= 1 || s.last() != 48 {
        assert(trim_zeros(s) =~= s.subrange(0, trim_zeros(s).len() as int));
    } else {
        lemma_trim_pad(s.drop_last());
        assert(trim_zeros(s) == trim_zeros(s.drop_last()));
        assert forall|j: int| 0 <= j < trim_zeros(s).len() implies trim_zeros(s)[j] == s[j] by {
            assert(trim_zeros(s)[j] == s.drop_last()[j]);
        }
        assert(trim_zeros(s) =~= s.subrange(0, trim_zeros(s).len() as int));
        assert forall|j: int| trim_zeros(s).len() <= j < s.len() implies s[j] == 48 by {
            if j < s.len() - 1 {
                assert(s.drop_last()[j] == 48);
                assert(s[j] == s.drop_last()[j]);
            } else {
                assert(s[j] == s.last());
            }
        }
    }
}

proof fn lemma_frac4_injective(f: nat, g: nat)
    requires
        f < 10000,
        g < 10000,
        frac4(f) == frac4(g),
    ensures
        f == g,
{
    assert(frac4(f)[0] == frac4(g)[0]);
    assert(frac4(f)[1] == frac4(g)[1]);
    assert(frac4(f)[2] == frac4(g)[2]);
    assert(frac4(f)[3] == frac4(g)[3]);
    assert(f / 1000 % 10 == g / 1000 % 10);
    assert(f / 100 % 10 == g / 100 % 10);
    assert(f / 10 % 10 == g / 10 % 10);
    assert(f % 10 == g % 10);
    assert(f == (f / 1000 % 10) * 1000 + (f / 100 % 10) * 100 + (f / 10 % 10) * 10 + f % 10)
        by (nonlinear_arith)
        requires
            f < 10000,
    ;
    assert(g == (g / 1000 % 10) * 1000 + (g / 100 % 10) * 100 + (g / 10 % 10) * 10 + g % 10)
        by (nonlinear_arith)
        requires
            g < 10000,
    ;
}

proof fn lemma_frac_text_injective(f: nat, g: nat)
    requires
        f < 10000,
        g < 10000,
        trim_zeros(frac4(f)) == trim_zeros(frac4(g)),
    ensures
        f == g,
{
    lemma_trim_pad(frac4(f));
    lemma_trim_pad(frac4(g));
    assert forall|j: int| 0 <= j < 4 implies frac4(f)[j] == frac4(g)[j] by {
        if j < trim_zeros(frac4(f)).len() {
            assert(frac4(f)[j] == trim_zeros(frac4(f))[j]);
            assert(frac4(g)[j] == trim_zeros(frac4(g))[j]);
        } else {
            assert(frac4(f)[j] == 48);
            assert(frac4(g)[j] == 48);
        }
    }
    assert(frac4(f) =~= frac4(g));
    lemma_frac4_injective(f, g);
}

/// The wire text of a utilization value determines the value: no two scaled
/// values share a decimal rendering, so a reader of the wire form can
/// recover each number uniquely.
pub proof fn lemma_num_text_injective(m: nat, n: nat)
    requires
        num_text(m) == num_text(n),
    ensures
        m == n,
{
    let am = dec_digits(m / 10000);
    let an = dec_digits(n / 10000);
    let tm = trim_zeros(frac4(m % 10000));
    let tn = trim_zeros(frac4(n % 10000));
    lemma_dec_rec_digits(m / 10000);
    lemma_dec_rec_digits(n / 10000);
    assert(forall|j: int| 0 <= j < am.len() ==> #[trigger] am[j] != 46);
    assert(forall|j: int| 0 <= j < an.len() ==> #[trigger] an[j] != 46);
    if am.len() < an.len() {
        assert(num_text(m)[am.len() as int] == 46);
        assert(num_text(n)[am.len() as int] == an[am.len() as int]);
        assert(false);
    }
    if an.len() < am.len() {
        assert(num_text(n)[an.len() as int] == 46);
        assert(num_text(m)[an.len() as int] == am[an.len() as int]);
        assert(false);
    }
    assert forall|j: int| 0 <= j < am.len() implies am[j] == an[j] by {
        assert(num_text(m)[j] == am[j]);
        assert(num_text(n)[j] == an[j]);
    }
    assert(am =~= an);
    lemma_dec_digits_injective(m / 10000, n / 10000);
    assert(num_text(m).len() == am.len() + 1 + tm.len());
    assert(num_text(n).len() == an.len() + 1 + tn.len());
    assert(tm.len() == tn.len());
    assert forall|j: int| 0 <= j < tm.len() implies tm[j] == tn[j] by {
        assert(num_text(m)[am.len() + 1 + j] == tm[j]);
        assert(num_text(n)[an.len() + 1 + j] == tn[j]);
    }
    assert(tm =~= tn);
    lemma_frac_text_injective(m % 10000, n % 10000);
}

proof fn lemma_trim_min(s: Seq<u8>)
    requires
        s.len() >= 1,
    ensures
        trim_zeros(s).len() >= 1,
    decreases s.len(),
{
    if s.len() > 1 && s.last() == 48 {
        lemma_trim_min(s.drop_last());
    }
}

proof fn lemma_num_text_shape(n: nat)
    ensures
        num_text(n).len() >= 3,
        num_text(n).len() == dec_digits(n / 10000).len() + 1 + trim_zeros(frac4(n % 10000)).len(),
        48 <= num_text(n)[0] <= 57,
        forall|j: int|
            0 <= j < num_text(n).len() ==> #[trigger] num_text(n)[j] != 44 && num_text(n)[j] != 93,
        forall|j: int|
            0 <= j < num_text(n).len() ==> ((#[trigger] num_text(n)[j] == 46) <==> j == dec_digits(
                n / 10000,
            ).len()),
        forall|j: int|
            0 <= j < num_text(n).len() ==> (#[trigger] num_text(n)[j] == 46 || (48 <= num_text(
                n,
            )[j] <= 57)),
{
    lemma_dec_rec_digits(n / 10000);
    lemma_trim_pad(frac4(n % 10000));
    lemma_trim_min(frac4(n % 10000));
    let d = dec_digits(n / 10000);
    let t = trim_zeros(frac4(n % 10000));
    if n / 10000 > 0 {
        assert(dec_rec(n / 10000) == dec_rec(n / 10000 / 10).push((48 + (n / 10000) % 10) as u8));
        assert(d.len() >= 1);
    }
    assert forall|j: int| 0 <= j < d.len() implies 48 <= #[trigger] d[j] <= 57 by {
        if n / 10000 == 0 {
            assert(d[j] == 48);
        } else {
            assert(d[j] == dec_rec(n / 10000)[j]);
        }
    }
    assert forall|j: int| 0 <= j < t.len() implies 48 <= #[trigger] t[j] <= 57 by {
        assert(t[j] == frac4(n % 10000)[j]);
    }
    assert(num_text(n)[0] == d[0]);
    assert forall|j: int|
        0 <= j < num_text(n).len() implies #[trigger] num_text(n)[j] != 44 && num_text(n)[j] != 93
        && ((num_text(n)[j] == 46) <==> j == d.len()) && (num_text(n)[j] == 46 || (48 <= num_text(
        n,
    )[j] <= 57)) by {
        if j < d.len() {
            assert(num_text(n)[j] == d[j]);
        } else if j == d.len() {
            assert(num_text(n)[j] == 46);
        } else {
            assert(num_text(n)[j] == t[j - d.len() - 1]);
        }
    }
}

spec fn num_at(b: Seq<u8>, i: int, v: u32) -> bool {
    &&& 0 <= i
    &&& i + num_text(v as nat).len() <= b.len()
    &&& b.subrange(i, i + num_text(v as nat).len() as int) == num_text(v as nat)
    &&& (i + num_text(v as nat).len() == b.len() || !(48 <= b[i + num_text(
        v as nat,
    ).len() as int] <= 57))
}

proof fn lemma_num_at_unique(b: Seq<u8>, i: int, v: u32, w: u32)
    requires
        num_at(b, i, v),
        num_at(b, i, w),
    ensures
        v == w,
{
    lemma_num_text_shape(v as nat);
    lemma_num_text_shape(w as nat);
    lemma_trim_min(frac4(v as nat % 10000));
    lemma_trim_min(frac4(w as nat % 10000));
    let tv = num_text(v as nat);
    let tw = num_text(w as nat);
    assert forall|j: int| 0 <= j < tv.len() implies b[i + j] == #[trigger] tv[j] by {
        assert(b.subrange(i, i + tv.len() as int)[j] == b[i + j]);
    }
    assert forall|j: int| 0 <= j < tw.len() implies b[i + j] == #[trigger] tw[j] by {
        assert(b.subrange(i, i + tw.len() as int)[j] == b[i + j]);
    }
    if tv.len() < tw.len() {
        let lv = tv.len() as int;
        assert(i + lv < b.len());
        assert(!(48 <= b[i + lv] <= 57));
        assert(b[i + lv] == tw[lv]);
        assert(tw[lv] == 46);
        let dv = dec_digits(v as nat / 10000).len() as int;
        assert(dv < lv);
        assert(tv[dv] == 46);
        assert(b[i + dv] == 46);
        assert(tw[dv] == 46);
        assert(false);
    }
    if tw.len() < tv.len() {
        let lw = tw.len() as int;
        assert(i + lw < b.len());
        assert(!(48 <= b[i + lw] <= 57));
        assert(b[i + lw] == tv[lw]);
        assert(tv[lw] == 46);
        let dw = dec_digits(w as nat / 10000).len() as int;
        assert(dw < lw);
        assert(tw[dw] == 46);
        assert(b[i + dw] == 46);
        assert(tv[dw] == 46);
        assert(false);
    }
    assert forall|j: int| 0 <= j < tv.len() implies tv[j] == tw[j] by {
        assert(b[i + j] == tv[j]);
        assert(b[i + j] == tw[j]);
    }
    assert(tv =~= tw);
    lemma_num_text_injective(v as nat, w as nat);
}

spec fn val_of(ds: Seq<u8>) -> int
    decreases ds.len(),
{
    if ds.len() == 0 {
        0
    } else {
        val_of(ds.drop_last()) * 10 + (ds.last() - 48)
    }
}

spec fn pow_ten(k: nat) -> int
    decreases k,
{
    if k == 0 {
        1
    } else {
        10 * pow_ten((k - 1) as nat)
    }
}

proof fn lemma_val_of_dec(v: nat)
    ensures
        val_of(dec_digits(v)) == v,
    decreases v,
{
    if v == 0 {
        assert(dec_digits(0) == seq![48u8]);
        assert(dec_digits(0).drop_last() =~= Seq::<u8>::empty());
        assert(dec_digits(0).last() == 48);
        assert(val_of(Seq::<u8>::empty()) == 0);
        assert(val_of(dec_digits(0)) == 0);
    } else {
        assert(dec_rec(v) == dec_rec(v / 10).push((48 + v % 10) as u8));
        assert(dec_rec(v).drop_last() =~= dec_rec(v / 10));
        assert(dec_rec(v).last() == (48 + v % 10) as u8);
        if v / 10 == 0 {
            assert(dec_rec(v / 10).len() == 0);
            assert(val_of(dec_rec(v / 10)) == 0);
            assert(val_of(dec_rec(v)) == v % 10);
        } else {
            lemma_val_of_dec(v / 10);
            assert(dec_digits(v / 10) == dec_rec(v / 10));
            assert(val_of(dec_rec(v)) == (v / 10) * 10 + (v % 10));
        }
        assert(v == (v / 10) * 10 + v % 10);
    }
}

proof fn lemma_val_nonneg(ds: Seq<u8>)
    requires
        forall|j: int| 0 <= j < ds.len() ==> 48 <= #[trigger] ds[j] <= 57,
    ensures
        val_of(ds) >= 0,
    decreases ds.len(),
{
    if ds.len() > 0 {
        assert forall|j: int| 0 <= j < ds.drop_last().len() implies 48 <= #[trigger] ds.drop_last()[j]
            <= 57 by {
            assert(ds.drop_last()[j] == ds[j]);
        }
        lemma_val_nonneg(ds.drop_last());
        assert(ds.last() >= 48);
    }
}

proof fn lemma_val_prefix_le(ds: Seq<u8>, t: int)
    requires
        0 <= t <= ds.len(),
        forall|j: int| 0 <= j < ds.len() ==> 48 <= #[trigger] ds[j] <= 57,
    ensures
        0 <= val_of(ds.subrange(0, t)) <= val_of(ds),
    decreases ds.len() - t,
{
    assert forall|j: int| 0 <= j < ds.subrange(0, t).len() implies 48 <= #[trigger] ds.subrange(
        0,
        t,
    )[j] <= 57 by {
        assert(ds.subrange(0, t)[j] == ds[j]);
    }
    lemma_val_nonneg(ds.subrange(0, t));
    if t == ds.len() {
        assert(ds.subrange(0, t) =~= ds);
    } else {
        lemma_val_prefix_le(ds, t + 1);
        assert(ds.subrange(0, t + 1).drop_last() =~= ds.subrange(0, t));
        assert(ds.subrange(0, t + 1).last() == ds[t]);
        assert(val_of(ds.subrange(0, t + 1)) == val_of(ds.subrange(0, t)) * 10 + (ds[t] - 48));
    }
}

proof fn lemma_val_strip_zeros(s: Seq<u8>, t: int)
    requires
        0 <= t <= s.len(),
        forall|j: int| t <= j < s.len() ==> s[j] == 48,
    ensures
        val_of(s) == val_of(s.subrange(0, t)) * pow_ten((s.len() - t) as nat),
    decreases s.len() - t,
{
    if t == s.len() {
        assert(s.subrange(0, t) =~= s);
        assert(pow_ten(0) == 1);
    } else {
        assert forall|j: int| t <= j < s.drop_last().len() implies s.drop_last()[j] == 48 by {
            assert(s.drop_last()[j] == s[j]);
        }
        lemma_val_strip_zeros(s.drop_last(), t);
        assert(s.last() == 48);
        assert(val_of(s) == val_of(s.drop_last()) * 10);
        assert(s.drop_last().subrange(0, t) =~= s.subrange(0, t));
        let a = val_of(s.subrange(0, t));
        let p = pow_ten((s.len() - 1 - t) as nat);
        assert(pow_ten((s.len() - t) as nat) == 10 * p);
        assert(a * p * 10 == a * (10 * p)) by (nonlinear_arith);
    }
}

proof fn lemma_val_frac4(f: nat)
    requires
        f < 10000,
    ensures
        val_of(frac4(f)) == f,
{
    let s = frac4(f);
    let d3 = s[0] - 48;
    let d2 = s[1] - 48;
    let d1 = s[2] - 48;
    let d0 = s[3] - 48;
    assert(s.drop_last() =~= seq![s[0], s[1], s[2]]);
    assert(s.drop_last().drop_last() =~= seq![s[0], s[1]]);
    assert(s.drop_last().drop_last().drop_last() =~= seq![s[0]]);
    assert(seq![s[0]].drop_last() =~= Seq::<u8>::empty());
    assert(val_of(Seq::<u8>::empty()) == 0);
    assert(val_of(seq![s[0]]) == d3);
    assert(val_of(seq![s[0], s[1]]) == d3 * 10 + d2);
    assert(val_of(seq![s[0], s[1], s[2]]) == (d3 * 10 + d2) * 10 + d1);
    assert(val_of(s) == ((d3 * 10 + d2) * 10 + d1) * 10 + d0);
    assert(f == (f / 1000 % 10) * 1000 + (f / 100 % 10) * 100 + (f / 10 % 10) * 10 + f % 10)
        by (nonlinear_arith)
        requires
            f < 10000,
    ;
}

proof fn lemma_num_ext(m: nat, n: nat, x: Seq<u8>, y: Seq<u8>)
    requires
        num_text(m) + x == num_text(n) + y,
        x.len() > 0 ==> x[0] == 44 || x[0] == 93,
        y.len() > 0 ==> y[0] == 44 || y[0] == 93,
    ensures
        m == n,
        x == y,
{
    lemma_num_text_shape(m);
    lemma_num_text_shape(n);
    let lm = num_text(m).len();
    let ln = num_text(n).len();
    assert((num_text(m) + x).len() == lm + x.len());
    assert((num_text(n) + y).len() == ln + y.len());
    if lm < ln {
        assert((num_text(n) + y)[lm as int] == num_text(n)[lm as int]);
        assert((num_text(m) + x)[lm as int] == x[0]);
        assert(false);
    }
    if ln < lm {
        assert((num_text(m) + x)[ln as int] == num_text(m)[ln as int]);
        assert((num_text(n) + y)[ln as int] == y[0]);
        assert(false);
    }
    assert forall|j: int| 0 <= j < lm implies num_text(m)[j] == num_text(n)[j] by {
        assert((num_text(m) + x)[j] == num_text(m)[j]);
        assert((num_text(n) + y)[j] == num_text(n)[j]);
    }
    assert(num_text(m) =~= num_text(n));
    lemma_num_text_injective(m, n);
    assert forall|j: int| 0 <= j < x.len() implies x[j] == y[j] by {
        assert((num_text(m) + x)[lm + j] == x[j]);
        assert((num_text(n) + y)[ln + j] == y[j]);
    }
    assert(x =~= y);
}

proof fn lemma_nums_left(us: Seq<u32>)
    requires
        us.len() >= 2,
    ensures
        nums_json(us) == num_text(us[0] as nat) + (seq![44u8] + nums_json(us.drop_first())),
    decreases us.len(),
{
    let dl = us.drop_last();
    let df = us.drop_first();
    if us.len() == 2 {
        assert(dl =~= seq![us[0]]);
        assert(df =~= seq![us[1]]);
        assert(nums_json(us) == nums_json(dl) + seq![44u8] + num_text(us[1] as nat));
        assert(nums_json(dl) == num_text(us[0] as nat));
        assert(nums_json(df) == num_text(us[1] as nat));
        assert(nums_json(dl) + seq![44u8] + num_text(us[1] as nat) =~= num_text(us[0] as nat) + (
        seq![44u8] + nums_json(df)));
    } else {
        lemma_nums_left(dl);
        assert(dl[0] == us[0]);
        assert(dl.drop_first() =~= df.drop_last());
        assert(df.last() == us.last());
        assert(nums_json(df) == nums_json(df.drop_last()) + seq![44u8] + num_text(
            df.last() as nat,
        ));
        assert(nums_json(us) == nums_json(dl) + seq![44u8] + num_text(us.last() as nat));
        assert(nums_json(us) == (num_text(us[0] as nat) + (seq![44u8] + nums_json(df.drop_last())))
            + seq![44u8] + num_text(us.last() as nat));
        assert((num_text(us[0] as nat) + (seq![44u8] + nums_json(df.drop_last()))) + seq![44u8]
            + num_text(us.last() as nat) =~= num_text(us[0] as nat) + (seq![44u8] + (nums_json(
            df.drop_last(),
        ) + seq![44u8] + num_text(df.last() as nat))));
    }
}

proof fn lemma_nums_ext(a: Seq<u32>, b: Seq<u32>, x: Seq<u8>, y: Seq<u8>)
    requires
        nums_json(a) + x == nums_json(b) + y,
        x.len() > 0,
        y.len() > 0,
        x[0] == 93,
        y[0] == 93,
    ensures
        a == b,
        x == y,
    decreases a.len(),
{
    if a.len() == 0 && b.len() == 0 {
        assert(nums_json(a) + x =~= x);
        assert(nums_json(b) + y =~= y);
        assert(a =~= b);
    } else if a.len() == 0 {
        lemma_num_text_shape(b[0] as nat);
        assert((nums_json(a) + x)[0] == x[0]);
        if b.len() == 1 {
            assert((nums_json(b) + y)[0] == num_text(b[0] as nat)[0]);
        } else {
            lemma_nums_left(b);
            assert((nums_json(b) + y)[0] == num_text(b[0] as nat)[0]);
        }
        assert(false);
    } else if b.len() == 0 {
        lemma_num_text_shape(a[0] as nat);
        assert((nums_json(b) + y)[0] == y[0]);
        if a.len() == 1 {
            assert((nums_json(a) + x)[0] == num_text(a[0] as nat)[0]);
        } else {
            lemma_nums_left(a);
            assert((nums_json(a) + x)[0] == num_text(a[0] as nat)[0]);
        }
        assert(false);
    } else {
        let ra: Seq<u8> = if a.len() == 1 {
            x
        } else {
            seq![44u8] + nums_json(a.drop_first()) + x
        };
        let rb: Seq<u8> = if b.len() == 1 {
            y
        } else {
            seq![44u8] + nums_json(b.drop_first()) + y
        };
        if a.len() == 1 {
            assert(nums_json(a) + x =~= num_text(a[0] as nat) + ra);
        } else {
            lemma_nums_left(a);
            assert((num_text(a[0] as nat) + (seq![44u8] + nums_json(a.drop_first()))) + x
                =~= num_text(a[0] as nat) + ra);
        }
        if b.len() == 1 {
            assert(nums_json(b) + y =~= num_text(b[0] as nat) + rb);
        } else {
            lemma_nums_left(b);
            assert((num_text(b[0] as nat) + (seq![44u8] + nums_json(b.drop_first()))) + y
                =~= num_text(b[0] as nat) + rb);
        }
        assert(ra.len() > 0 && (ra[0] == 44 || ra[0] == 93));
        assert(rb.len() > 0 && (rb[0] == 44 || rb[0] == 93));
        lemma_num_ext(a[0] as nat, b[0] as nat, ra, rb);
        if a.len() == 1 && b.len() > 1 {
            assert(ra[0] == 93 && rb[0] == 44);
            assert(false);
        }
        if b.len() == 1 && a.len() > 1 {
            assert(rb[0] == 93 && ra[0] == 44);
            assert(false);
        }
        if a.len() == 1 && b.len() == 1 {
            assert(a =~= b);
        } else {
            assert(seq![44u8] + nums_json(a.drop_first()) + x == seq![44u8] + nums_json(
                b.drop_first(),
            ) + y);
            assert((seq![44u8] + nums_json(a.drop_first()) + x).drop_first() =~= nums_json(
                a.drop_first(),
            ) + x);
            assert((seq![44u8] + nums_json(b.drop_first()) + y).drop_first() =~= nums_json(
                b.drop_first(),
            ) + y);
            lemma_nums_ext(a.drop_first(), b.drop_first(), x, y);
            assert(a[0] == b[0]);
            assert forall|i: int| 0 <= i < a.len() implies a[i] == b[i] by {
                if i > 0 {
                    assert(a.drop_first()[i - 1] == a[i]);
                    assert(b.drop_first()[i - 1] == b[i]);
                }
            }
            assert(a =~= b);
        }
    }
}

spec fn escaped(b: u8) -> bool {
    b == 34 || b == 92 || b == 10 || b == 13 || b == 9 || b < 32
}

proof fn lemma_esc_left(s: Seq<u8>)
    requires
        s.len() > 0,
    ensures
        esc(s) == esc_byte(s[0]) + esc(s.drop_first()),
    decreases s.len(),
{
    if s.len() == 1 {
        assert(s.drop_last() =~= Seq::<u8>::empty());
        assert(s.drop_first() =~= Seq::<u8>::empty());
        assert(esc(s.drop_last()) =~= Seq::<u8>::empty());
        assert(esc(s.drop_first()) =~= Seq::<u8>::empty());
        assert(esc(s) == esc(s.drop_last()) + esc_byte(s.last()));
        assert(esc(s) =~= esc_byte(s[0]) + esc(s.drop_first()));
    } else {
        let dl = s.drop_last();
        let df = s.drop_first();
        lemma_esc_left(dl);
        assert(dl[0] == s[0]);
        assert(dl.drop_first() =~= df.drop_last());
        assert(df.last() == s.last());
        assert(esc(df) == esc(df.drop_last()) + esc_byte(df.last()));
        assert(esc(s) == (esc_byte(s[0]) + esc(df.drop_last())) + esc_byte(s.last()));
        assert((esc_byte(s[0]) + esc(df.drop_last())) + esc_byte(s.last()) =~= esc_byte(s[0]) + (
        esc(df.drop_last()) + esc_byte(s.last())));
    }
}

proof fn lemma_add_cancel(p: Seq<u8>, q: Seq<u8>, r: Seq<u8>, t: Seq<u8>)
    requires
        p.len() == r.len(),
        p + q == r + t,
    ensures
        q == t,
{
    assert((p + q).len() == p.len() + q.len());
    assert((r + t).len() == r.len() + t.len());
    assert(q.len() == t.len());
    assert forall|i: int| 0 <= i < q.len() implies q[i] == t[i] by {
        assert((p + q)[p.len() + i] == q[i]);
        assert((r + t)[r.len() + i] == t[i]);
    }
    assert(q =~= t);
}

proof fn lemma_esc_injective(x: Seq<u8>, y: Seq<u8>)
    requires
        esc(x) == esc(y),
    ensures
        x == y,
    decreases x.len(),
{
    if x.len() == 0 && y.len() == 0 {
        assert(x =~= y);
    } else if x.len() == 0 {
        lemma_esc_left(y);
        assert(esc(y).len() >= esc_byte(y[0]).len());
        assert(false);
    } else if y.len() == 0 {
        lemma_esc_left(x);
        assert(esc(x).len() >= esc_byte(x[0]).len());
        assert(false);
    } else {
        lemma_esc_left(x);
        lemma_esc_left(y);
        lemma_esc_head(x[0], y[0], esc(x.drop_first()), esc(y.drop_first()));
        lemma_esc_injective(x.drop_first(), y.drop_first());
        assert(x.len() == y.len());
        assert forall|i: int| 0 <= i < x.len() implies x[i] == y[i] by {
            if i > 0 {
                assert(x.drop_first()[i - 1] == x[i]);
                assert(y.drop_first()[i - 1] == y[i]);
            }
        }
        assert(x =~= y);
    }
}

proof fn lemma_esc_head(a: u8, b: u8, p: Seq<u8>, q: Seq<u8>)
    requires
        esc_byte(a) + p == esc_byte(b) + q,
    ensures
        a == b,
        p == q,
{
    let s = esc_byte(a) + p;
    assert(s[0] == esc_byte(a)[0]);
    assert(s[0] == esc_byte(b)[0]);
    if escaped(a) && !escaped(b) {
        assert(esc_byte(a)[0] == 92);
        assert(esc_byte(b)[0] == b);
        assert(false);
    }
    if !escaped(a) && escaped(b) {
        assert(esc_byte(b)[0] == 92);
        assert(esc_byte(a)[0] == a);
        assert(false);
    }
    if !escaped(a) && !escaped(b) {
        assert(a == b);
    } else {
        assert(esc_byte(a).len() >= 2);
        assert(esc_byte(b).len() >= 2);
        assert(s[1] == esc_byte(a)[1]);
        assert(s[1] == esc_byte(b)[1]);
        if esc_byte(a)[1] == 117 {
            assert(a < 32 && b < 32);
            assert(s[4] == esc_byte(a)[4]);
            assert(s[5] == esc_byte(a)[5]);
            assert(s[4] == esc_byte(b)[4]);
            assert(s[5] == esc_byte(b)[5]);
            assert(hex_digit((a / 16) as nat) == hex_digit((b / 16) as nat));
            assert(hex_digit((a % 16) as nat) == hex_digit((b % 16) as nat));
            assert(a / 16 == b / 16);
            assert(a % 16 == b % 16);
            assert(a == b);
        } else {
            assert(a == b);
        }
    }
    lemma_add_cancel(esc_byte(a), p, esc_byte(b), q);
}

proof fn lemma_esc_ext(u: Seq<u8>, v: Seq<u8>, x: Seq<u8>, y: Seq<u8>)
    requires
        esc(u) + x == esc(v) + y,
        x.len() > 0,
        y.len() > 0,
        x[0] == 34,
        y[0] == 34,
    ensures
        u == v,
        x == y,
    decreases u.len(),
{
    if u.len() == 0 && v.len() == 0 {
        assert(esc(u) + x =~= x);
        assert(esc(v) + y =~= y);
        assert(u =~= v);
    } else if u.len() == 0 {
        lemma_esc_left(v);
        assert(esc(u) + x =~= x);
        assert((esc(v) + y)[0] == esc_byte(v[0])[0]);
        if escaped(v[0]) {
            assert(esc_byte(v[0])[0] == 92);
        } else {
            assert(esc_byte(v[0])[0] == v[0]);
        }
        assert(false);
    } else if v.len() == 0 {
        lemma_esc_left(u);
        assert(esc(v) + y =~= y);
        assert((esc(u) + x)[0] == esc_byte(u[0])[0]);
        if escaped(u[0]) {
            assert(esc_byte(u[0])[0] == 92);
        } else {
            assert(esc_byte(u[0])[0] == u[0]);
        }
        assert(false);
    } else {
        lemma_esc_left(u);
        lemma_esc_left(v);
        assert((esc_byte(u[0]) + esc(u.drop_first())) + x =~= esc_byte(u[0]) + (esc(
            u.drop_first(),
        ) + x));
        assert((esc_byte(v[0]) + esc(v.drop_first())) + y =~= esc_byte(v[0]) + (esc(
            v.drop_first(),
        ) + y));
        lemma_esc_head(u[0], v[0], esc(u.drop_first()) + x, esc(v.drop_first()) + y);
        lemma_esc_ext(u.drop_first(), v.drop_first(), x, y);
        assert(u.len() == v.len());
        assert forall|i: int| 0 <= i < u.len() implies u[i] == v[i] by {
            if i > 0 {
                assert(u.drop_first()[i - 1] == u[i]);
                assert(v.drop_first()[i - 1] == v[i]);
            }
        }
        assert(u =~= v);
    }
}

proof fn lemma_strs_left(fs: Seq<Seq<u8>>)
    requires
        fs.len() >= 2,
    ensures
        strs_json(fs) == str_json(fs[0]) + (seq![44u8] + strs_json(fs.drop_first())),
    decreases fs.len(),
{
    let dl = fs.drop_last();
    let df = fs.drop_first();
    if fs.len() == 2 {
        assert(dl =~= seq![fs[0]]);
        assert(df =~= seq![fs[1]]);
        assert(strs_json(fs) == strs_json(dl) + seq![44u8] + str_json(fs[1]));
        assert(strs_json(dl) == str_json(fs[0]));
        assert(strs_json(df) == str_json(fs[1]));
        assert(strs_json(dl) + seq![44u8] + str_json(fs[1]) =~= str_json(fs[0]) + (seq![44u8]
            + strs_json(df)));
    } else {
        lemma_strs_left(dl);
        assert(dl[0] == fs[0]);
        assert(dl.drop_first() =~= df.drop_last());
        assert(df.last() == fs.last());
        assert(strs_json(df) == strs_json(df.drop_last()) + seq![44u8] + str_json(df.last()));
        assert(strs_json(fs) == strs_json(dl) + seq![44u8] + str_json(fs.last()));
        assert(strs_json(fs) == (str_json(fs[0]) + (seq![44u8] + strs_json(df.drop_last())))
            + seq![44u8] + str_json(fs.last()));
        assert((str_json(fs[0]) + (seq![44u8] + strs_json(df.drop_last()))) + seq![44u8]
            + str_json(fs.last()) =~= str_json(fs[0]) + (seq![44u8] + (strs_json(df.drop_last())
            + seq![44u8] + str_json(df.last()))));
    }
}

#[verifier::rlimit(60)]
proof fn lemma_strs_ext(a: Seq<Seq<u8>>, b: Seq<Seq<u8>>, x: Seq<u8>, y: Seq<u8>)
    requires
        strs_json(a) + x == strs_json(b) + y,
        x.len() > 0,
        y.len() > 0,
        x[0] == 93,
        y[0] == 93,
    ensures
        a == b,
        x == y,
    decreases a.len(),
{
    if a.len() == 0 && b.len() == 0 {
        assert(strs_json(a) + x =~= x);
        assert(strs_json(b) + y =~= y);
        assert(a =~= b);
    } else if a.len() == 0 {
        assert(strs_json(a) + x =~= x);
        if b.len() == 1 {
            assert(strs_json(b) == str_json(b[0]));
        } else {
            lemma_strs_left(b);
        }
        assert((strs_json(b) + y)[0] == str_json(b[0])[0]);
        assert(str_json(b[0])[0] == 34);
        assert(false);
    } else if b.len() == 0 {
        assert(strs_json(b) + y =~= y);
        if a.len() == 1 {
            assert(strs_json(a) == str_json(a[0]));
        } else {
            lemma_strs_left(a);
        }
        assert((strs_json(a) + x)[0] == str_json(a[0])[0]);
        assert(str_json(a[0])[0] == 34);
        assert(false);
    } else {
        let ra: Seq<u8> = if a.len() == 1 {
            x
        } else {
            seq![44u8] + strs_json(a.drop_first()) + x
        };
        let rb: Seq<u8> = if b.len() == 1 {
            y
        } else {
            seq![44u8] + strs_json(b.drop_first()) + y
        };
        if a.len() == 1 {
            assert(strs_json(a) + x =~= seq![34u8] + (esc(a[0]) + (seq![34u8] + ra)));
        } else {
            lemma_strs_left(a);
            assert((str_json(a[0]) + (seq![44u8] + strs_json(a.drop_first()))) + x =~= seq![34u8]
                + (esc(a[0]) + (seq![34u8] + ra)));
        }
        if b.len() == 1 {
            assert(strs_json(b) + y =~= seq![34u8] + (esc(b[0]) + (seq![34u8] + rb)));
        } else {
            lemma_strs_left(b);
            assert((str_json(b[0]) + (seq![44u8] + strs_json(b.drop_first()))) + y =~= seq![34u8]
                + (esc(b[0]) + (seq![34u8] + rb)));
        }
        lemma_add_cancel(
            seq![34u8],
            esc(a[0]) + (seq![34u8] + ra),
            seq![34u8],
            esc(b[0]) + (seq![34u8] + rb),
        );
        lemma_esc_ext(a[0], b[0], seq![34u8] + ra, seq![34u8] + rb);
        assert((seq![34u8] + ra).drop_first() =~= ra);
        assert((seq![34u8] + rb).drop_first() =~= rb);
        assert(ra == rb);
        if a.len() == 1 && b.len() > 1 {
            assert(ra[0] == 93 && rb[0] == 44);
            assert(false);
        }
        if b.len() == 1 && a.len() > 1 {
            assert(rb[0] == 93 && ra[0] == 44);
            assert(false);
        }
        if a.len() == 1 && b.len() == 1 {
            assert(a =~= b);
        } else {
            assert((seq![44u8] + strs_json(a.drop_first()) + x).drop_first() =~= strs_json(
                a.drop_first(),
            ) + x);
            assert((seq![44u8] + strs_json(b.drop_first()) + y).drop_first() =~= strs_json(
                b.drop_first(),
            ) + y);
            lemma_strs_ext(a.drop_first(), b.drop_first(), x, y);
            assert forall|i: int| 0 <= i < a.len() implies a[i] == b[i] by {
                if i > 0 {
                    assert(a.drop_first()[i - 1] == a[i]);
                    assert(b.drop_first()[i - 1] == b[i]);
                }
            }
            assert(a =~= b);
        }
    }
}

/// The whole wire form determines the snapshot content: no two different
/// snapshots share an encoding, so decoding is unambiguous.
pub proof fn lemma_snap_json_injective(a: SnapView, b: SnapView)
    requires
        snap_json(a) == snap_json(b),
    ensures
        a == b,
{
    let sa = nums_json(a.utils) + (lit_mid() + (strs_json(a.frags) + lit_tail()));
    let sb = nums_json(b.utils) + (lit_mid() + (strs_json(b.frags) + lit_tail()));
    assert(snap_json(a) =~= lit_head() + sa);
    assert(snap_json(b) =~= lit_head() + sb);
    lemma_add_cancel(lit_head(), sa, lit_head(), sb);
    assert((lit_mid() + (strs_json(a.frags) + lit_tail()))[0] == 93);
    assert((lit_mid() + (strs_json(b.frags) + lit_tail()))[0] == 93);
    lemma_nums_ext(
        a.utils,
        b.utils,
        lit_mid() + (strs_json(a.frags) + lit_tail()),
        lit_mid() + (strs_json(b.frags) + lit_tail()),
    );
    lemma_add_cancel(
        lit_mid(),
        strs_json(a.frags) + lit_tail(),
        lit_mid(),
        strs_json(b.frags) + lit_tail(),
    );
    lemma_strs_ext(a.frags, b.frags, lit_tail(), lit_tail());
    assert(a =~= b);
}

/// The wire form of a fragment determines the fragment: escaping loses
/// nothing, so a reader of the wire form can recover each sentence uniquely.
pub proof fn lemma_str_json_injective(a: Seq<u8>, b: Seq<u8>)
    requires
        str_json(a) == str_json(b),
    ensures
        a == b,
{
    assert(str_json(a).len() == 2 + esc(a).len());
    assert(str_json(b).len() == 2 + esc(b).len());
    assert forall|i: int| 0 <= i < esc(a).len() implies esc(a)[i] == esc(b)[i] by {
        assert(str_json(a)[i + 1] == esc(a)[i]);
        assert(str_json(b)[i + 1] == esc(b)[i]);
    }
    assert(esc(a) =~= esc(b));
    lemma_esc_injective(a, b);
}

fn bytes_eq(a: &Vec<u8>, b: &Vec<u8>) -> (r: bool)
    ensures
        r == (a@ == b@),
{
    if a.len() != b.len() {
        return false;
    }
    let mut i: usize = 0;
    while i < a.len()
        invariant
            i <= a@.len(),
            a@.len() == b@.len(),
            forall|k: int| 0 <= k < i ==> a@[k] == b@[k],
        decreases a@.len() - i,
    {
        if a[i] != b[i] {
            return false;
        }
        i = i + 1;
    }
    proof {
        assert(a@ =~= b@);
    }
    true
}

fn expect(bytes: &Vec<u8>, i: usize, b: u8) -> (r: Option<usize>)
    ensures
        r matches Some(j) ==> i < j <= bytes@.len() && j == i + 1,
        (r is Some) <==> (i < bytes@.len() && bytes@[i as int] == b),
{
    if i < bytes.len() && bytes[i] == b {
        Some(i + 1)
    } else {
        None
    }
}

fn parse_num_loose(bytes: &Vec<u8>, start: usize) -> (r: Option<(u32, usize)>)
    ensures
        r matches Some(p) ==> start < p.1 <= bytes@.len(),
        (exists|v: u32| num_at(bytes@, start as int, v)) ==> (r matches Some(p) && num_at(
            bytes@,
            start as int,
            p.0,
        ) && p.1 == start + num_text(p.0 as nat).len()),
{
    let ghost has = exists|v: u32| num_at(bytes@, start as int, v);
    let ghost gv: u32 = if has {
        choose|v: u32| num_at(bytes@, start as int, v)
    } else {
        0
    };
    let ghost gn = num_text(gv as nat);
    let ghost gd = dec_digits(gv as nat / 10000);
    let ghost gt = trim_zeros(frac4(gv as nat % 10000));
    proof {
        if has {
            assert(num_at(bytes@, start as int, gv));
            lemma_num_ghost_facts(bytes@, start as int, gv);
        }
    }
    let len = bytes.len();
    let mut i: usize = start;
    let mut a: u32 = 0;
    if i >= len || !(48 <= bytes[i] && bytes[i] <= 57) {
        proof {
            if has {
                assert(bytes@[start as int] == gn[0]);
                assert(false);
            }
        }
        return None;
    }
    proof {
        if has {
            assert(gd.subrange(0, 0) =~= Seq::<u8>::empty());
        }
    }
    while i < len && 48 <= bytes[i] && bytes[i] <= 57
        invariant
            start <= i <= len,
            len == bytes@.len(),
            has ==> num_at(bytes@, start as int, gv),
            has == (exists|v: u32| num_at(bytes@, start as int, v)),
            gv == if has { choose|v: u32| num_at(bytes@, start as int, v) } else { 0 },
            gn == num_text(gv as nat),
            gd == dec_digits(gv as nat / 10000),
            gt == trim_zeros(frac4(gv as nat % 10000)),
            has ==> i - start <= gd.len() && a as int == val_of(gd.subrange(0, i - start)),
        decreases len - i,
    {
        proof {
            if has {
                lemma_num_ghost_facts(bytes@, start as int, gv);
                if i - start == gd.len() {
                    assert(bytes@[i as int] == gn[gd.len() as int]);
                    assert(false);
                }
                assert(bytes@[i as int] == gn[i - start]);
                assert(gn[i - start] == gd[i - start]);
            }
        }
        let d: u32 = (bytes[i] - 48) as u32;
        if a > (u32::MAX - d) / 10 {
            proof {
                if has {
                    lemma_val_prefix_le(gd, i - start);
                    lemma_val_of_dec(gv as nat / 10000);
                    assert(a as int <= gv as nat / 10000);
                    assert(false);
                }
            }
            return None;
        }
        proof {
            assert(a * 10 + d <= u32::MAX) by (nonlinear_arith)
                requires
                    a <= (u32::MAX - d) / 10,
                    d <= 9,
            ;
            if has {
                let t = i - start;
                assert(gd.subrange(0, t + 1).drop_last() =~= gd.subrange(0, t));
                assert(gd.subrange(0, t + 1).last() == gd[t]);
                assert(val_of(gd.subrange(0, t + 1)) == val_of(gd.subrange(0, t)) * 10 + (gd[t]
                    - 48));
            }
        }
        a = a * 10 + d;
        i = i + 1;
    }
    proof {
        if has {
            lemma_num_ghost_facts(bytes@, start as int, gv);
            if i - start < gd.len() {
                assert(bytes@[i as int] == gn[i - start]);
                assert(gn[i - start] == gd[i - start]);
                assert(i < len);
                assert(false);
            }
            assert(i - start == gd.len());
            assert(gd.subrange(0, gd.len() as int) =~= gd);
            lemma_val_of_dec(gv as nat / 10000);
            assert(a as int == gv as nat / 10000);
        }
    }
    if i >= len || bytes[i] != 46 {
        proof {
            if has {
                assert(bytes@[i as int] == gn[gd.len() as int]);
                assert(false);
            }
        }
        return None;
    }
    i = i + 1;
    let mut f: u32 = 0;
    let mut count: usize = 0;
    proof {
        if has {
            assert(gt.subrange(0, 0) =~= Seq::<u8>::empty());
        }
    }
    while i < len && 48 <= bytes[i] && bytes[i] <= 57 && count < 4
        invariant
            start < i <= len,
            len == bytes@.len(),
            count <= 4,
            count == 0 ==> f == 0,
            count == 1 ==> f < 10,
            count == 2 ==> f < 100,
            count == 3 ==> f < 1000,
            count == 4 ==> f < 10000,
            has ==> num_at(bytes@, start as int, gv),
            has == (exists|v: u32| num_at(bytes@, start as int, v)),
            gv == if has { choose|v: u32| num_at(bytes@, start as int, v) } else { 0 },
            gn == num_text(gv as nat),
            gd == dec_digits(gv as nat / 10000),
            gt == trim_zeros(frac4(gv as nat % 10000)),
            has ==> a as int == gv as nat / 10000,
            has ==> i == start + gd.len() + 1 + count && count <= gt.len() && f as int == val_of(
                gt.subrange(0, count as int),
            ),
        decreases len - i,
    {
        proof {
            if has {
                lemma_num_ghost_facts(bytes@, start as int, gv);
                if count == gt.len() {
                    if start + gn.len() < len {
                        assert(!(48 <= bytes@[start + gn.len()] <= 57));
                    }
                    assert(false);
                }
                assert(bytes@[i as int] == gn[gd.len() + 1 + count]);
                assert(gn[gd.len() + 1 + count] == gt[count as int]);
                assert(gt.subrange(0, count + 1).drop_last() =~= gt.subrange(0, count as int));
                assert(gt.subrange(0, count + 1).last() == gt[count as int]);
            }
        }
        f = f * 10 + (bytes[i] - 48) as u32;
        count = count + 1;
        i = i + 1;
    }
    proof {
        if has {
            lemma_num_ghost_facts(bytes@, start as int, gv);
            if count < gt.len() {
                assert(bytes@[i as int] == gn[gd.len() + 1 + count]);
                assert(gn[gd.len() + 1 + count] == gt[count as int]);
                assert(i < len);
                assert(count < 4);
                assert(false);
            }
            assert(count == gt.len());
            assert(gt.subrange(0, gt.len() as int) =~= gt);
        }
    }
    if count == 0 {
        proof {
            if has {
                assert(false);
            }
        }
        return None;
    }
    let scale: u32 = if count == 1 {
        1000
    } else if count == 2 {
        100
    } else if count == 3 {
        10
    } else {
        1
    };
    let scaled_frac: u32 = f * scale;
    proof {
        if has {
            assert(pow_ten(0) == 1);
            assert(pow_ten(1) == 10);
            assert(pow_ten(2) == 100);
            assert(pow_ten(3) == 1000);
            assert(scale as int == pow_ten((4 - gt.len()) as nat));
            lemma_trim_pad(frac4(gv as nat % 10000));
            assert(gt == frac4(gv as nat % 10000).subrange(0, gt.len() as int));
            lemma_val_strip_zeros(frac4(gv as nat % 10000), gt.len() as int);
            lemma_val_frac4(gv as nat % 10000);
            assert(scaled_frac as int == val_of(gt) * pow_ten((4 - gt.len()) as nat));
            assert(scaled_frac as int == gv as nat % 10000);
            assert(gv as int == (gv as nat / 10000) * 10000 + (gv as nat % 10000));
        }
    }
    if a > (u32::MAX - scaled_frac) / 10000 {
        proof {
            if has {
                assert(a * 10000 + scaled_frac <= u32::MAX);
                assert(a <= (u32::MAX - scaled_frac) / 10000) by (nonlinear_arith)
                    requires
                        a * 10000 <= u32::MAX - scaled_frac,
                ;
                assert(false);
            }
        }
        return None;
    }
    proof {
        assert(a * 10000 + scaled_frac <= u32::MAX) by (nonlinear_arith)
            requires
                a <= (u32::MAX - scaled_frac) / 10000,
        ;
        if has {
            assert(a * 10000 + scaled_frac == gv);
            assert(i == start + gn.len());
        }
    }
    Some((a * 10000 + scaled_frac, i))
}

proof fn lemma_num_ghost_facts(b: Seq<u8>, start: int, gv: u32)
    requires
        num_at(b, start, gv),
    ensures
        ({
            let gn = num_text(gv as nat);
            let gd = dec_digits(gv as nat / 10000);
            let gt = trim_zeros(frac4(gv as nat % 10000));
            &&& gn.len() == gd.len() + 1 + gt.len()
            &&& gn.len() >= 3
            &&& gd.len() >= 1
            &&& gt.len() >= 1
            &&& gt.len() <= 4
            &&& start + gn.len() <= b.len()
            &&& forall|j: int| 0 <= j < gn.len() ==> b[start + j] == #[trigger] gn[j]
            &&& forall|j: int| 0 <= j < gd.len() ==> gn[j] == #[trigger] gd[j]
            &&& gn[gd.len() as int] == 46
            &&& forall|j: int| 0 <= j < gt.len() ==> gn[gd.len() + 1 + j] == #[trigger] gt[j]
            &&& forall|j: int| 0 <= j < gd.len() ==> 48 <= #[trigger] gd[j] <= 57
            &&& forall|j: int| 0 <= j < gt.len() ==> 48 <= #[trigger] gt[j] <= 57
            &&& (start + gn.len() == b.len() || !(48 <= b[start + gn.len()] <= 57))
        }),
{
    let gn = num_text(gv as nat);
    let gd = dec_digits(gv as nat / 10000);
    let gt = trim_zeros(frac4(gv as nat % 10000));
    lemma_num_text_shape(gv as nat);
    lemma_trim_min(frac4(gv as nat % 10000));
    lemma_trim_pad(frac4(gv as nat % 10000));
    assert forall|j: int| 0 <= j < gn.len() implies b[start + j] == #[trigger] gn[j] by {
        assert(b.subrange(start, start + gn.len() as int)[j] == b[start + j]);
    }
    assert forall|j: int| 0 <= j < gd.len() implies gn[j] == #[trigger] gd[j] by {}
    assert forall|j: int| 0 <= j < gt.len() implies gn[gd.len() + 1 + j] == #[trigger] gt[j] by {}
    assert forall|j: int| 0 <= j < gd.len() implies 48 <= #[trigger] gd[j] <= 57 by {
        assert(gn[j] == gd[j]);
        assert(gn[j] != 46);
    }
    assert forall|j: int| 0 <= j < gt.len() implies 48 <= #[trigger] gt[j] <= 57 by {
        assert(gn[gd.len() + 1 + j] == gt[j]);
        assert(gn[gd.len() + 1 + j] != 46);
    }
}

fn hex_val(b: u8) -> (r: Option<u8>)
    ensures
        r matches Some(v) ==> v < 16 && hex_digit(v as nat) == b,
        (48 <= b <= 57 || 97 <= b <= 102) ==> r is Some,
{
    if 48 <= b && b <= 57 {
        Some(b - 48)
    } else if 97 <= b && b <= 102 {
        Some(b - 87)
    } else {
        None
    }
}

proof fn lemma_esc_append(a: Seq<u8>, b: Seq<u8>)
    ensures
        esc(a + b) == esc(a) + esc(b),
    decreases b.len(),
{
    if b.len() == 0 {
        assert(a + b =~= a);
        assert(esc(b) =~= Seq::<u8>::empty());
        assert(esc(a) + esc(b) =~= esc(a));
    } else {
        lemma_esc_append(a, b.drop_last());
        assert((a + b).drop_last() =~= a + b.drop_last());
        assert((a + b).last() == b.last());
        assert(esc(a + b) == esc(a + b.drop_last()) + esc_byte(b.last()));
        assert((esc(a) + esc(b.drop_last())) + esc_byte(b.last()) =~= esc(a) + (esc(b.drop_last())
            + esc_byte(b.last())));
    }
}

spec fn str_at(b: Seq<u8>, i: int, f: Seq<u8>) -> bool {
    &&& 0 <= i
    &&& i + str_json(f).len() <= b.len()
    &&& b.subrange(i, i + str_json(f).len() as int) == str_json(f)
}

proof fn lemma_str_at_half(b: Seq<u8>, i: int, f1: Seq<u8>, f2: Seq<u8>)
    requires
        str_at(b, i, f1),
        str_at(b, i, f2),
        str_json(f1).len() <= str_json(f2).len(),
    ensures
        f1 == f2,
{
    let l1 = str_json(f1).len() as int;
    let l2 = str_json(f2).len() as int;
    let suffix = b.subrange(i + l1, i + l2);
    assert forall|j: int| 0 <= j < l1 implies b[i + j] == #[trigger] str_json(f1)[j] by {
        assert(b.subrange(i, i + l1)[j] == b[i + j]);
    }
    assert forall|j: int| 0 <= j < l2 implies b[i + j] == #[trigger] str_json(f2)[j] by {
        assert(b.subrange(i, i + l2)[j] == b[i + j]);
    }
    assert(str_json(f1) =~= seq![34u8] + (esc(f1) + seq![34u8]));
    assert(str_json(f2) =~= seq![34u8] + (esc(f2) + seq![34u8]));
    assert forall|j: int| 0 <= j < l2 - 1 implies b.subrange(i + 1, i + l2)[j] == (esc(f2)
        + seq![34u8])[j] by {
        assert(b.subrange(i + 1, i + l2)[j] == b[i + 1 + j]);
        assert(b[i + 1 + j] == str_json(f2)[1 + j]);
        assert(str_json(f2)[1 + j] == (seq![34u8] + (esc(f2) + seq![34u8]))[1 + j]);
    }
    assert(b.subrange(i + 1, i + l2) =~= esc(f2) + seq![34u8]);
    assert forall|j: int| 0 <= j < l2 - 1 implies b.subrange(i + 1, i + l2)[j] == (esc(f1) + (
    seq![34u8] + suffix))[j] by {
        assert(b.subrange(i + 1, i + l2)[j] == b[i + 1 + j]);
        if j < l1 - 1 {
            assert(b[i + 1 + j] == str_json(f1)[1 + j]);
            assert(str_json(f1)[1 + j] == (seq![34u8] + (esc(f1) + seq![34u8]))[1 + j]);
        } else {
            assert(suffix[j - (l1 - 1)] == b[i + l1 + (j - (l1 - 1))]);
        }
    }
    assert(b.subrange(i + 1, i + l2) =~= esc(f1) + (seq![34u8] + suffix));
    lemma_esc_ext(f1, f2, seq![34u8] + suffix, seq![34u8]);
}

proof fn lemma_str_at_unique(b: Seq<u8>, i: int, f1: Seq<u8>, f2: Seq<u8>)
    requires
        str_at(b, i, f1),
        str_at(b, i, f2),
    ensures
        f1 == f2,
{
    if str_json(f1).len() <= str_json(f2).len() {
        lemma_str_at_half(b, i, f1, f2);
    } else {
        lemma_str_at_half(b, i, f2, f1);
    }
}

proof fn lemma_str_ghost_facts(b: Seq<u8>, start: int, gf: Seq<u8>, t: int)
    requires
        str_at(b, start, gf),
        0 <= t <= gf.len(),
    ensures
        ({
            let p = esc(gf.subrange(0, t)).len() as int;
            &&& str_json(gf).len() == 2 + esc(gf).len()
            &&& start + str_json(gf).len() <= b.len()
            &&& b[start] == 34
            &&& b[start + 1 + esc(gf).len()] == 34
            &&& esc(gf) == esc(gf.subrange(0, t)) + esc(gf.subrange(t, gf.len() as int))
            &&& p <= esc(gf).len()
            &&& (t < gf.len() ==> esc(gf.subrange(0, t + 1)) == esc(gf.subrange(0, t)) + esc_byte(
                gf[t],
            ))
            &&& (t < gf.len() ==> p + esc_byte(gf[t]).len() <= esc(gf).len())
            &&& (t < gf.len() ==> forall|k: int|
                0 <= k < esc_byte(gf[t]).len() ==> b[start + 1 + p + k] == #[trigger] esc_byte(
                    gf[t],
                )[k])
            &&& (forall|q: int| 0 <= q < esc(gf).len() ==> b[start + 1 + q] == #[trigger] esc(
                gf,
            )[q])
        }),
{
    let sj = str_json(gf);
    let p = esc(gf.subrange(0, t)).len() as int;
    assert forall|j: int| 0 <= j < sj.len() implies b[start + j] == #[trigger] sj[j] by {
        assert(b.subrange(start, start + sj.len() as int)[j] == b[start + j]);
    }
    assert(sj =~= seq![34u8] + (esc(gf) + seq![34u8]));
    assert(b[start] == sj[0]);
    assert forall|q: int| 0 <= q < esc(gf).len() implies b[start + 1 + q] == #[trigger] esc(
        gf,
    )[q] by {
        assert(sj[1 + q] == esc(gf)[q]);
        assert(b[start + 1 + q] == sj[1 + q]);
    }
    assert(b[start + 1 + esc(gf).len()] == sj[1 + esc(gf).len() as int]);
    assert(gf.subrange(0, t) + gf.subrange(t, gf.len() as int) =~= gf);
    lemma_esc_append(gf.subrange(0, t), gf.subrange(t, gf.len() as int));
    if t < gf.len() {
        let suf = gf.subrange(t, gf.len() as int);
        lemma_esc_left(suf);
        assert(suf[0] == gf[t]);
        assert(gf.subrange(0, t + 1).drop_last() =~= gf.subrange(0, t));
        assert(gf.subrange(0, t + 1).last() == gf[t]);
        assert forall|k: int| 0 <= k < esc_byte(gf[t]).len() implies b[start + 1 + p + k]
            == #[trigger] esc_byte(gf[t])[k] by {
            assert(esc(suf)[k] == esc_byte(gf[t])[k]);
            assert(esc(gf)[p + k] == esc(suf)[k]);
            assert(b[start + 1 + (p + k)] == esc(gf)[p + k]);
        }
    }
}

fn parse_str_loose(bytes: &Vec<u8>, start: usize) -> (r: Option<(Vec<u8>, usize)>)
    ensures
        r matches Some(p) ==> start < p.1 <= bytes@.len(),
        (exists|f: Seq<u8>| str_at(bytes@, start as int, f)) ==> (r matches Some(p) && str_at(
            bytes@,
            start as int,
            p.0@,
        ) && p.1 == start + str_json(p.0@).len()),
{
    let ghost hasf = exists|f: Seq<u8>| str_at(bytes@, start as int, f);
    let ghost gf: Seq<u8> = if hasf {
        choose|f: Seq<u8>| str_at(bytes@, start as int, f)
    } else {
        Seq::empty()
    };
    proof {
        if hasf {
            assert(str_at(bytes@, start as int, gf));
            lemma_str_ghost_facts(bytes@, start as int, gf, 0);
        }
    }
    let len = bytes.len();
    let mut i: usize = match expect(bytes, start, 34) {
        Some(j) => j,
        None => {
            proof {
                if hasf {
                    assert(bytes@[start as int] == 34);
                    assert(false);
                }
            }
            return None;
        },
    };
    let mut frag: Vec<u8> = Vec::new();
    proof {
        if hasf {
            assert(gf.subrange(0, 0) =~= Seq::<u8>::empty());
            assert(esc(gf.subrange(0, 0)) =~= Seq::<u8>::empty());
        }
    }
    while i < len && bytes[i] != 34
        invariant
            start < i <= len,
            len == bytes@.len(),
            hasf ==> str_at(bytes@, start as int, gf),
            hasf == (exists|f: Seq<u8>| str_at(bytes@, start as int, f)),
            gf == if hasf { choose|f: Seq<u8>| str_at(bytes@, start as int, f) } else { Seq::<u8>::empty() },
            hasf ==> frag@.len() <= gf.len() && frag@ == gf.subrange(0, frag@.len() as int) && i
                == start + 1 + esc(gf.subrange(0, frag@.len() as int)).len(),
        decreases len - i,
    {
        let ghost t = frag@.len() as int;
        proof {
            if hasf {
                lemma_str_ghost_facts(bytes@, start as int, gf, t);
                if t == gf.len() {
                    assert(esc(gf.subrange(0, t)) == esc(gf));
                    assert(bytes@[i as int] == 34);
                    assert(false);
                }
                assert(bytes@[i as int] == esc_byte(gf[t])[0]);
            }
        }
        let ghost c: u8 = if hasf { gf[t] } else { 0 };
        let b = bytes[i];
        if b == 92 {
            proof {
                if hasf {
                    if !escaped(c) {
                        assert(esc_byte(c)[0] == c);
                        assert(false);
                    }
                    assert(esc_byte(c).len() >= 2);
                    assert(bytes@[i as int + 1] == esc_byte(c)[1]);
                }
            }
            if i + 1 >= len {
                proof {
                    if hasf {
                        lemma_str_ghost_facts(bytes@, start as int, gf, t);
                        assert(false);
                    }
                }
                return None;
            }
            let e = bytes[i + 1];
            if e == 34 {
                proof {
                    if hasf {
                        assert(c == 34);
                        assert(gf.subrange(0, t + 1) =~= frag@.push(34u8));
                    }
                }
                frag.push(34);
                i = i + 2;
            } else if e == 92 {
                proof {
                    if hasf {
                        assert(c == 92);
                        assert(gf.subrange(0, t + 1) =~= frag@.push(92u8));
                    }
                }
                frag.push(92);
                i = i + 2;
            } else if e == 110 {
                proof {
                    if hasf {
                        assert(c == 10);
                        assert(gf.subrange(0, t + 1) =~= frag@.push(10u8));
                    }
                }
                frag.push(10);
                i = i + 2;
            } else if e == 114 {
                proof {
                    if hasf {
                        assert(c == 13);
                        assert(gf.subrange(0, t + 1) =~= frag@.push(13u8));
                    }
                }
                frag.push(13);
                i = i + 2;
            } else if e == 116 {
                proof {
                    if hasf {
                        assert(c == 9);
                        assert(gf.subrange(0, t + 1) =~= frag@.push(9u8));
                    }
                }
                frag.push(9);
                i = i + 2;
            } else if e == 117 {
                proof {
                    if hasf {
                        assert(c < 32 && c != 9 && c != 10 && c != 13 && c != 34 && c != 92);
                        assert(esc_byte(c).len() == 6);
                        assert(bytes@[i as int + 2] == esc_byte(c)[2]);
                        assert(bytes@[i as int + 3] == esc_byte(c)[3]);
                        assert(bytes@[i as int + 4] == esc_byte(c)[4]);
                        assert(bytes@[i as int + 5] == esc_byte(c)[5]);
                    }
                }
                if len - i < 6 {
                    proof {
                        if hasf {
                            assert(false);
                        }
                    }
                    return None;
                }
                if bytes[i + 2] != 48 || bytes[i + 3] != 48 {
                    proof {
                        if hasf {
                            assert(false);
                        }
                    }
                    return None;
                }
                let hi = match hex_val(bytes[i + 4]) {
                    Some(v) => v,
                    None => {
                        proof {
                            if hasf {
                                assert(false);
                            }
                        }
                        return None;
                    },
                };
                let lo = match hex_val(bytes[i + 5]) {
                    Some(v) => v,
                    None => {
                        proof {
                            if hasf {
                                assert(false);
                            }
                        }
                        return None;
                    },
                };
                proof {
                    if hasf {
                        assert(hi == c / 16 && lo == c % 16);
                        assert(hi * 16 + lo == c);
                        assert(gf.subrange(0, t + 1) =~= frag@.push(c));
                    }
                }
                frag.push(hi * 16 + lo);
                i = i + 6;
            } else {
                proof {
                    if hasf {
                        assert(false);
                    }
                }
                return None;
            }
        } else {
            proof {
                if hasf {
                    if escaped(c) {
                        assert(esc_byte(c)[0] == 92);
                        assert(false);
                    }
                    assert(b == c);
                    assert(gf.subrange(0, t + 1) =~= frag@.push(c));
                }
            }
            frag.push(b);
            i = i + 1;
        }
    }
    proof {
        if hasf {
            lemma_str_ghost_facts(bytes@, start as int, gf, frag@.len() as int);
            if frag@.len() < gf.len() {
                let t = frag@.len() as int;
                assert(bytes@[i as int] == esc_byte(gf[t])[0]);
                if escaped(gf[t]) {
                    assert(esc_byte(gf[t])[0] == 92);
                } else {
                    assert(esc_byte(gf[t])[0] == gf[t]);
                }
                assert(i < len);
                assert(false);
            }
            assert(frag@ == gf.subrange(0, gf.len() as int));
            assert(gf.subrange(0, gf.len() as int) =~= gf);
            assert(bytes@[i as int] == 34);
            assert(i < len);
        }
    }
    if i >= len {
        return None;
    }
    Some((frag, i + 1))
}

proof fn lemma_layout(b: Seq<u8>, v: SnapView)
    requires
        b == snap_json(v),
    ensures
        ({
            let o1 = 9 + nums_json(v.utils).len() as int;
            let o2 = o1 + 15;
            let o3 = o2 + strs_json(v.frags).len() as int;
            &&& b.len() == o3 + 2
            &&& forall|j: int| 0 <= j < 9 ==> b[j] == #[trigger] lit_head()[j]
            &&& forall|j: int|
                0 <= j < nums_json(v.utils).len() ==> b[9 + j] == #[trigger] nums_json(v.utils)[j]
            &&& forall|j: int| 0 <= j < 15 ==> b[o1 + j] == #[trigger] lit_mid()[j]
            &&& forall|j: int|
                0 <= j < strs_json(v.frags).len() ==> b[o2 + j] == #[trigger] strs_json(
                    v.frags,
                )[j]
            &&& b[o3] == 93
            &&& b[o3 + 1] == 125
        }),
{
    let h = lit_head();
    let n = nums_json(v.utils);
    let m = lit_mid();
    let st = strs_json(v.frags);
    let t = lit_tail();
    let o1 = 9 + n.len() as int;
    let o2 = o1 + 15;
    let o3 = o2 + st.len() as int;
    assert(b =~= h + (n + (m + (st + t))));
    assert forall|j: int| 0 <= j < 9 implies b[j] == #[trigger] h[j] by {}
    assert forall|j: int| 0 <= j < n.len() implies b[9 + j] == #[trigger] n[j] by {
        assert((h + (n + (m + (st + t))))[9 + j] == (n + (m + (st + t)))[j]);
    }
    assert forall|j: int| 0 <= j < 15 implies b[o1 + j] == #[trigger] m[j] by {
        assert((h + (n + (m + (st + t))))[o1 + j] == (n + (m + (st + t)))[n.len() + j]);
        assert((n + (m + (st + t)))[n.len() + j] == (m + (st + t))[j]);
    }
    assert forall|j: int| 0 <= j < st.len() implies b[o2 + j] == #[trigger] st[j] by {
        assert((h + (n + (m + (st + t))))[o2 + j] == (n + (m + (st + t)))[n.len() + 15 + j]);
        assert((n + (m + (st + t)))[n.len() + 15 + j] == (m + (st + t))[15 + j]);
        assert((m + (st + t))[15 + j] == (st + t)[j]);
    }
    assert(b[o3] == (st + t)[st.len() as int]);
    assert(b[o3 + 1] == (st + t)[st.len() as int + 1]);
}

proof fn lemma_nums_entry(b: Seq<u8>, gv: SnapView)
    requires
        gv.utils.len() == gv.frags.len(),
        b == snap_json(gv),
    ensures
        b.len() >= 26,
        9 + nums_json(gv.utils).len() + 15 <= b.len(),
        gv.utils.len() > 0 ==> 48 <= b[9] <= 57 && nums_json(gv.utils).len() >= 1 && (forall|
            j: int,
        |
            0 <= j < nums_json(gv.utils).len() ==> b[9 + j] == #[trigger] nums_json(
                gv.utils,
            )[j]),
        gv.utils.len() == 0 ==> b[9] == 93 && nums_json(gv.utils).len() == 0,
{
    lemma_layout(b, gv);
    if gv.utils.len() > 0 {
        lemma_num_text_shape(gv.utils[0] as nat);
        if gv.utils.len() == 1 {
            assert(nums_json(gv.utils) == num_text(gv.utils[0] as nat));
        } else {
            lemma_nums_left(gv.utils);
        }
        assert(nums_json(gv.utils)[0] == num_text(gv.utils[0] as nat)[0]);
        assert(b[9] == nums_json(gv.utils)[0]);
    } else {
        assert(b[9 + nums_json(gv.utils).len() as int] == lit_mid()[0]);
    }
}

proof fn lemma_strs_entry(b: Seq<u8>, gv: SnapView)
    requires
        gv.utils.len() == gv.frags.len(),
        b == snap_json(gv),
    ensures
        ({
            let o2 = 9 + nums_json(gv.utils).len() as int + 15;
            let o3 = o2 + strs_json(gv.frags).len() as int;
            &&& b.len() == o3 + 2
            &&& gv.frags.len() > 0 ==> b[o2] == 34 && strs_json(gv.frags).len() >= 1 && (forall|
                j: int,
            |
                0 <= j < strs_json(gv.frags).len() ==> b[o2 + j] == #[trigger] strs_json(
                    gv.frags,
                )[j])
            &&& gv.frags.len() == 0 ==> b[o2] == 93 && strs_json(gv.frags).len() == 0
            &&& b[o3] == 93
            &&& b[o3 + 1] == 125
        }),
{
    lemma_layout(b, gv);
    let o2 = 9 + nums_json(gv.utils).len() as int + 15;
    if gv.frags.len() > 0 {
        if gv.frags.len() == 1 {
            assert(strs_json(gv.frags) == str_json(gv.frags[0]));
        } else {
            lemma_strs_left(gv.frags);
        }
        assert(strs_json(gv.frags)[0] == str_json(gv.frags[0])[0]);
        assert(str_json(gv.frags[0])[0] == 34);
        assert(b[o2] == strs_json(gv.frags)[0]);
    } else {
        assert(b[o2] == 93);
    }
}

#[verifier::rlimit(100)]
proof fn lemma_num_loop_step(b: Seq<u8>, gv: SnapView, i: int, rem: Seq<u32>)
    requires
        gv.utils.len() == gv.frags.len(),
        b == snap_json(gv),
        rem.len() >= 1,
        0 <= i,
        i + nums_json(rem).len() == 9 + nums_json(gv.utils).len(),
        forall|j: int| 0 <= j < nums_json(rem).len() ==> b[i + j] == #[trigger] nums_json(rem)[j],
    ensures
        num_at(b, i, rem[0]),
        i + num_text(rem[0] as nat).len() <= b.len(),
        rem.len() > 1 ==> ({
            let ntl = num_text(rem[0] as nat).len() as int;
            &&& b[i + ntl] == 44
            &&& i + ntl + 1 + nums_json(rem.drop_first()).len() == 9 + nums_json(gv.utils).len()
            &&& nums_json(rem.drop_first()).len() >= 1
            &&& forall|j: int|
                0 <= j < nums_json(rem.drop_first()).len() ==> b[i + ntl + 1 + j]
                    == #[trigger] nums_json(rem.drop_first())[j]
        }),
        rem.len() == 1 ==> i + num_text(rem[0] as nat).len() == 9 + nums_json(gv.utils).len()
            && b[9 + nums_json(gv.utils).len() as int] == 93,
{
    lemma_layout(b, gv);
    lemma_num_text_shape(rem[0] as nat);
    let ntl = num_text(rem[0] as nat).len() as int;
    if rem.len() == 1 {
        assert(nums_json(rem) == num_text(rem[0] as nat));
    } else {
        lemma_nums_left(rem);
        assert(nums_json(rem) == num_text(rem[0] as nat) + (seq![44u8] + nums_json(
            rem.drop_first(),
        )));
        lemma_num_text_shape(rem.drop_first()[0] as nat);
        if rem.drop_first().len() == 1 {
            assert(nums_json(rem.drop_first()) == num_text(rem.drop_first()[0] as nat));
        } else {
            lemma_nums_left(rem.drop_first());
        }
    }
    assert forall|j: int| 0 <= j < ntl implies b.subrange(i, i + ntl)[j] == num_text(
        rem[0] as nat,
    )[j] by {
        assert(b[i + j] == nums_json(rem)[j]);
        if rem.len() > 1 {
            assert(nums_json(rem)[j] == (num_text(rem[0] as nat) + (seq![44u8] + nums_json(
                rem.drop_first(),
            )))[j]);
        }
    }
    assert(b.subrange(i, i + ntl) =~= num_text(rem[0] as nat));
    if rem.len() == 1 {
        assert(b[9 + nums_json(gv.utils).len() as int] == lit_mid()[0]);
        assert(!(48 <= b[i + ntl] <= 57));
    } else {
        assert(b[i + ntl] == nums_json(rem)[ntl]);
        assert(nums_json(rem)[ntl] == 44);
        assert forall|j: int|
            0 <= j < nums_json(rem.drop_first()).len() implies b[i + ntl + 1 + j]
            == #[trigger] nums_json(rem.drop_first())[j] by {
            assert(b[i + (ntl + 1 + j)] == nums_json(rem)[ntl + 1 + j]);
            assert(nums_json(rem)[ntl + 1 + j] == (seq![44u8] + nums_json(rem.drop_first()))[1
                + j]);
        }
    }
    assert(num_at(b, i, rem[0]));
}

#[verifier::rlimit(100)]
proof fn lemma_str_loop_step(b: Seq<u8>, gv: SnapView, i: int, remf: Seq<Seq<u8>>)
    requires
        gv.utils.len() == gv.frags.len(),
        b == snap_json(gv),
        remf.len() >= 1,
        0 <= i,
        i + strs_json(remf).len() == 9 + nums_json(gv.utils).len() + 15 + strs_json(
            gv.frags,
        ).len(),
        forall|j: int| 0 <= j < strs_json(remf).len() ==> b[i + j] == #[trigger] strs_json(remf)[j],
    ensures
        str_at(b, i, remf[0]),
        remf.len() > 1 ==> ({
            let sl = str_json(remf[0]).len() as int;
            &&& b[i + sl] == 44
            &&& i + sl + 1 + strs_json(remf.drop_first()).len() == 9 + nums_json(
                gv.utils,
            ).len() + 15 + strs_json(gv.frags).len()
            &&& strs_json(remf.drop_first()).len() >= 1
            &&& forall|j: int|
                0 <= j < strs_json(remf.drop_first()).len() ==> b[i + sl + 1 + j]
                    == #[trigger] strs_json(remf.drop_first())[j]
        }),
        remf.len() == 1 ==> i + str_json(remf[0]).len() == 9 + nums_json(gv.utils).len() + 15
            + strs_json(gv.frags).len() && b[9 + nums_json(gv.utils).len() + 15 + strs_json(
            gv.frags,
        ).len() as int] == 93,
{
    lemma_layout(b, gv);
    let sl = str_json(remf[0]).len() as int;
    if remf.len() == 1 {
        assert(strs_json(remf) == str_json(remf[0]));
    } else {
        lemma_strs_left(remf);
        assert(strs_json(remf) == str_json(remf[0]) + (seq![44u8] + strs_json(
            remf.drop_first(),
        )));
        if remf.drop_first().len() == 1 {
            assert(strs_json(remf.drop_first()) == str_json(remf.drop_first()[0]));
        } else {
            lemma_strs_left(remf.drop_first());
        }
    }
    assert forall|j: int| 0 <= j < sl implies b.subrange(i, i + sl)[j] == str_json(remf[0])[j] by {
        assert(b[i + j] == strs_json(remf)[j]);
        if remf.len() > 1 {
            assert(strs_json(remf)[j] == (str_json(remf[0]) + (seq![44u8] + strs_json(
                remf.drop_first(),
            )))[j]);
        }
    }
    assert(b.subrange(i, i + sl) =~= str_json(remf[0]));
    if remf.len() == 1 {
        assert(b[9 + nums_json(gv.utils).len() + 15 + strs_json(gv.frags).len() as int] == 93);
    } else {
        assert(b[i + sl] == strs_json(remf)[sl]);
        assert(strs_json(remf)[sl] == 44);
        assert forall|j: int|
            0 <= j < strs_json(remf.drop_first()).len() implies b[i + sl + 1 + j]
            == #[trigger] strs_json(remf.drop_first())[j] by {
            assert(b[i + (sl + 1 + j)] == strs_json(remf)[sl + 1 + j]);
            assert(strs_json(remf)[sl + 1 + j] == (seq![44u8] + strs_json(remf.drop_first()))[1
                + j]);
        }
    }
    assert(str_at(b, i, remf[0]));
}

#[verifier::rlimit(100)]
fn parse_snapshot(bytes: &Vec<u8>) -> (r: Option<Snapshot>)
    ensures
        (exists|v: SnapView| v.utils.len() == v.frags.len() && bytes@ == snap_json(v)) ==> (
        r matches Some(s) && bytes@ == snap_json(s@)),
{
    let ghost has = exists|v: SnapView| v.utils.len() == v.frags.len() && bytes@ == snap_json(v);
    let ghost gv: SnapView = if has {
        choose|v: SnapView| v.utils.len() == v.frags.len() && bytes@ == snap_json(v)
    } else {
        SnapView { utils: Seq::empty(), frags: Seq::empty() }
    };
    let ghost nu = gv.utils;
    let ghost fr = gv.frags;
    let ghost o1 = 9 + nums_json(nu).len() as int;
    let ghost o2 = o1 + 15;
    let ghost o3 = o2 + strs_json(fr).len() as int;
    proof {
        if has {
            lemma_layout(bytes@, gv);
        }
    }
    let len = bytes.len();
    let head: Vec<u8> = vec![123u8, 34u8, 99u8, 112u8, 117u8, 115u8, 34u8, 58u8, 91u8];
    proof {
        assert(head@ =~= lit_head());
    }
    let mut i: usize = 0;
    let mut h: usize = 0;
    while h < head.len()
        invariant
            h <= 9,
            i == h,
            i <= len,
            len == bytes@.len(),
            head@ == lit_head(),
            has == (exists|v: SnapView|
                v.utils.len() == v.frags.len() && bytes@ == snap_json(v)),
            gv == (if has {
                choose|v: SnapView| v.utils.len() == v.frags.len() && bytes@ == snap_json(v)
            } else {
                SnapView { utils: Seq::empty(), frags: Seq::empty() }
            }),
            nu == gv.utils,
            fr == gv.frags,
            o1 == 9 + nums_json(nu).len() as int,
            o2 == o1 + 15,
            o3 == o2 + strs_json(fr).len() as int,
            has ==> bytes@ == snap_json(gv),
        decreases head@.len() - h,
    {
        proof {
            if has {
                lemma_layout(bytes@, gv);
                assert(bytes@[i as int] == lit_head()[h as int]);
            }
        }
        i = match expect(bytes, i, head[h]) {
            Some(j) => j,
            None => {
                proof {
                    if has {
                        assert(false);
                    }
                }
                return None;
            },
        };
        h = h + 1;
    }
    let mut utils: Vec<u32> = Vec::new();
    let ghost mut rem: Seq<u32> = nu;
    proof {
        if has {
            lemma_nums_entry(bytes@, gv);
            assert(utils@ + rem =~= nu);
        }
    }
    if !(i < len && bytes[i] == 93) {
        proof {
            if has {
                assert(nu.len() > 0);
            }
        }
        loop
            invariant_except_break
                has ==> rem.len() >= 1 && utils@ + rem == nu && i + nums_json(rem).len() == o1
                    && (forall|j: int|
                    0 <= j < nums_json(rem).len() ==> bytes@[i + j] == #[trigger] nums_json(
                        rem,
                    )[j]),
            invariant
                9 <= i <= len,
                len == bytes@.len(),
                has == (exists|v: SnapView|
                    v.utils.len() == v.frags.len() && bytes@ == snap_json(v)),
                gv == (if has {
                    choose|v: SnapView| v.utils.len() == v.frags.len() && bytes@ == snap_json(v)
                } else {
                    SnapView { utils: Seq::empty(), frags: Seq::empty() }
                }),
                nu == gv.utils,
                fr == gv.frags,
                o1 == 9 + nums_json(nu).len() as int,
                o2 == o1 + 15,
                o3 == o2 + strs_json(fr).len() as int,
                has ==> bytes@ == snap_json(gv),
            ensures
                i <= len,
                len == bytes@.len(),
                has ==> utils@ == nu && i == o1,
            decreases len - i,
        {
            proof {
                if has {
                    lemma_num_loop_step(bytes@, gv, i as int, rem);
                }
            }
            let (v, j) = match parse_num_loose(bytes, i) {
                Some(p) => p,
                None => {
                    proof {
                        if has {
                            assert(false);
                        }
                    }
                    return None;
                },
            };
            proof {
                if has {
                    lemma_num_at_unique(bytes@, i as int, v, rem[0]);
                    assert(v == rem[0]);
                    assert((utils@.push(v)) + rem.drop_first() =~= utils@ + rem);
                }
            }
            utils.push(v);
            let ghost old_rem = rem;
            proof {
                rem = rem.drop_first();
            }
            i = j;
            proof {
                if has {
                    if old_rem.len() > 1 {
                        assert(bytes@[i as int] == 44);
                        assert(i < len);
                    } else {
                        assert(i == o1);
                        assert(bytes@[o1] == 93);
                    }
                }
            }
            if i < len && bytes[i] == 44 {
                i = i + 1;
                proof {
                    if has {
                        assert(rem.len() >= 1);
                        assert(i < len);
                    }
                }
                if i == len {
                    return None;
                }
            } else {
                proof {
                    if has {
                        if rem.len() >= 1 {
                            assert(bytes@[i as int] == 44);
                            assert(i < len);
                            assert(false);
                        }
                        assert(utils@ + rem =~= utils@);
                        assert(utils@ == nu);
                    }
                }
                break ;
            }
        }
    } else {
        proof {
            if has {
                if nu.len() > 0 {
                    assert(48 <= bytes@[9] <= 57);
                    assert(false);
                }
                assert(utils@ + rem =~= utils@);
                assert(i == o1);
            }
        }
    }
    let mid: Vec<u8> = vec![
        93u8, 44u8, 34u8, 115u8, 101u8, 110u8, 116u8, 101u8, 110u8, 99u8, 101u8, 115u8, 34u8,
        58u8, 91u8,
    ];
    proof {
        assert(mid@ =~= lit_mid());
    }
    let mut m: usize = 0;
    let ghost i_mid = i as int;
    while m < mid.len()
        invariant
            m <= 15,
            i_mid <= i <= len,
            i == i_mid + m,
            len == bytes@.len(),
            mid@ == lit_mid(),
            has == (exists|v: SnapView|
                v.utils.len() == v.frags.len() && bytes@ == snap_json(v)),
            gv == (if has {
                choose|v: SnapView| v.utils.len() == v.frags.len() && bytes@ == snap_json(v)
            } else {
                SnapView { utils: Seq::empty(), frags: Seq::empty() }
            }),
            nu == gv.utils,
            fr == gv.frags,
            o1 == 9 + nums_json(nu).len() as int,
            o2 == o1 + 15,
            o3 == o2 + strs_json(fr).len() as int,
            has ==> bytes@ == snap_json(gv),
            has ==> i_mid == o1,
        decreases mid@.len() - m,
    {
        proof {
            if has {
                lemma_layout(bytes@, gv);
                assert(bytes@[i as int] == lit_mid()[m as int]);
            }
        }
        i = match expect(bytes, i, mid[m]) {
            Some(j) => j,
            None => {
                proof {
                    if has {
                        assert(false);
                    }
                }
                return None;
            },
        };
        m = m + 1;
    }
    let mut frags: Vec<Vec<u8>> = Vec::new();
    let ghost mut remf: Seq<Seq<u8>> = fr;
    proof {
        if has {
            lemma_strs_entry(bytes@, gv);
            assert(views_of(frags@) + remf =~= fr);
        }
    }
    if !(i < len && bytes[i] == 93) {
        proof {
            if has {
                assert(fr.len() > 0);
            }
        }
        loop
            invariant_except_break
                has ==> remf.len() >= 1 && views_of(frags@) + remf == fr && i + strs_json(
                    remf,
                ).len() == o3 && (forall|j: int|
                    0 <= j < strs_json(remf).len() ==> bytes@[i + j] == #[trigger] strs_json(
                        remf,
                    )[j]),
            invariant
                9 <= i <= len,
                len == bytes@.len(),
                has == (exists|v: SnapView|
                    v.utils.len() == v.frags.len() && bytes@ == snap_json(v)),
                gv == (if has {
                    choose|v: SnapView| v.utils.len() == v.frags.len() && bytes@ == snap_json(v)
                } else {
                    SnapView { utils: Seq::empty(), frags: Seq::empty() }
                }),
                nu == gv.utils,
                fr == gv.frags,
                o1 == 9 + nums_json(nu).len() as int,
                o2 == o1 + 15,
                o3 == o2 + strs_json(fr).len() as int,
                has ==> bytes@ == snap_json(gv),
            ensures
                i <= len,
                len == bytes@.len(),
                has ==> views_of(frags@) == fr && i == o3,
            decreases len - i,
        {
            proof {
                if has {
                    lemma_str_loop_step(bytes@, gv, i as int, remf);
                }
            }
            let (frag, j) = match parse_str_loose(bytes, i) {
                Some(p) => p,
                None => {
                    proof {
                        if has {
                            assert(false);
                        }
                    }
                    return None;
                },
            };
            proof {
                if has {
                    lemma_str_at_unique(bytes@, i as int, frag@, remf[0]);
                    assert(frag@ == remf[0]);
                    assert(views_of(frags@.push(frag)) =~= views_of(frags@) + seq![frag@]);
                    assert((views_of(frags@) + seq![frag@]) + remf.drop_first() =~= views_of(
                        frags@,
                    ) + remf);
                }
            }
            frags.push(frag);
            let ghost old_remf = remf;
            proof {
                remf = remf.drop_first();
            }
            i = j;
            proof {
                if has {
                    if old_remf.len() > 1 {
                        assert(bytes@[i as int] == 44);
                        assert(i < len);
                    } else {
                        assert(i == o3);
                        assert(bytes@[o3] == 93);
                    }
                }
            }
            if i < len && bytes[i] == 44 {
                i = i + 1;
                proof {
                    if has {
                        assert(remf.len() >= 1);
                        assert(i < len);
                    }
                }
                if i == len {
                    return None;
                }
            } else {
                proof {
                    if has {
                        if remf.len() >= 1 {
                            assert(bytes@[i as int] == 44);
                            assert(i < len);
                            assert(false);
                        }
                        assert(views_of(frags@) + remf =~= views_of(frags@));
                        assert(views_of(frags@) == fr);
                    }
                }
                break ;
            }
        }
    } else {
        proof {
            if has {
                if fr.len() > 0 {
                    assert(bytes@[o2] == 34);
                    assert(false);
                }
                assert(views_of(frags@) + remf =~= views_of(frags@));
                assert(i == o3);
            }
        }
    }
    proof {
        if has {
            lemma_strs_entry(bytes@, gv);
        }
    }
    i = match expect(bytes, i, 93) {
        Some(j) => j,
        None => {
            proof {
                if has {
                    assert(false);
                }
            }
            return None;
        },
    };
    i = match expect(bytes, i, 125) {
        Some(j) => j,
        None => {
            proof {
                if has {
                    assert(false);
                }
            }
            return None;
        },
    };
    if i != len {
        proof {
            if has {
                assert(false);
            }
        }
        return None;
    }
    if utils.len() != frags.len() {
        proof {
            if has {
                assert(utils@.len() == nu.len());
                assert(views_of(frags@).len() == fr.len());
                assert(false);
            }
        }
        return None;
    }
    let s = Snapshot::new(utils, frags);
    proof {
        if has {
            assert(s@ =~= gv);
        }
    }
    Some(s)
}

/// Parses the wire form back into a snapshot. Strict and total over the
/// format: a snapshot is returned exactly when the input is, byte for byte,
/// the encoding of a snapshot, and then it is the only snapshot with that
/// wire form; anything else is rejected.
pub fn decode_snapshot(bytes: &Vec<u8>) -> (r: Option<Snapshot>)
    ensures
        r matches Some(s) ==> bytes@ == snap_json(s@) && (forall|v: SnapView|
            bytes@ == snap_json(v) ==> v == s@),
        (exists|v: SnapView| v.utils.len() == v.frags.len() && bytes@ == snap_json(v)) ==> r
            is Some,
{
    match parse_snapshot(bytes) {
        Some(s) => {
            let enc = encode_snapshot(&s);
            if bytes_eq(bytes, &enc) {
                proof {
                    assert forall|v: SnapView| bytes@ == snap_json(v) implies v == s@ by {
                        lemma_snap_json_injective(v, s@);
                    }
                }
                Some(s)
            } else {
                None
            }
        },
        None => None,
    }
}

} // verus!
