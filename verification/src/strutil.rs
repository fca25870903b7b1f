use vstd::prelude::*;
use vstd::string::StrSliceExecFns;
use vstd::string::StringExecFns;

verus! {

broadcast use
    vstd::utf8::char_is_scalar,
    vstd::utf8::char_u32_cast;

/// Lexicographic order on character sequences by code point, the order in
/// which expected identifiers are listed in a mismatch report.
pub open spec fn str_lt(a: Seq<char>, b: Seq<char>) -> bool
    decreases a.len(),
{
    if b.len() == 0 {
        false
    } else if a.len() == 0 {
        true
    } else if (a[0] as u32) < (b[0] as u32) {
        true
    } else if (a[0] as u32) > (b[0] as u32) {
        false
    } else {
        str_lt(a.drop_first(), b.drop_first())
    }
}

/// `str_lt` never holds both ways, and two sequences it orders neither way
/// are equal: it is a strict total order.
pub proof fn lemma_str_lt_total(a: Seq<char>, b: Seq<char>)
    ensures
        str_lt(a, b) ==> !str_lt(b, a),
        !str_lt(a, b) && !str_lt(b, a) ==> a == b,
    decreases a.len(),
{
    if a.len() > 0 && b.len() > 0 {
        lemma_str_lt_total(a.drop_first(), b.drop_first());
        if !str_lt(a, b) && !str_lt(b, a) {
            assert(a[0] == b[0]) by {
                assert((a[0] as u32) == (b[0] as u32));
                vstd::utf8::char_u32_cast(a[0], a[0] as u32);
                vstd::utf8::char_u32_cast(b[0], b[0] as u32);
            }
            assert(a =~= seq![a[0]] + a.drop_first());
            assert(b =~= seq![b[0]] + b.drop_first());
        }
    } else if !str_lt(a, b) && !str_lt(b, a) {
        assert(a.len() == 0 && b.len() == 0);
        assert(a =~= b);
    }
}

/// `str_lt` is transitive.
pub proof fn lemma_str_lt_trans(a: Seq<char>, b: Seq<char>, c: Seq<char>)
    requires
        str_lt(a, b),
        str_lt(b, c),
    ensures
        str_lt(a, c),
    decreases a.len(),
{
    if a.len() > 0 && b.len() > 0 && c.len() > 0 {
        if (a[0] as u32) == (b[0] as u32) && (b[0] as u32) == (c[0] as u32) {
            lemma_str_lt_trans(a.drop_first(), b.drop_first(), c.drop_first());
        }
    }
}

/// Compares two identifiers in the `str_lt` order.
pub fn str_lt_exec(a: &String, b: &String) -> (r: bool)
    ensures
        r == str_lt(a@, b@),
{
    let alen = a.as_str().unicode_len();
    let blen = b.as_str().unicode_len();
    let mut i: usize = 0;
    proof {
        assert(a@.skip(0) =~= a@);
        assert(b@.skip(0) =~= b@);
    }
    loop
        invariant
            i <= alen,
            i <= blen,
            alen == a@.len(),
            blen == b@.len(),
            str_lt(a@, b@) == str_lt(a@.skip(i as int), b@.skip(i as int)),
        decreases alen - i,
    {
        if i == blen {
            proof {
                assert(b@.skip(i as int).len() == 0);
            }
            return false;
        }
        if i == alen {
            proof {
                assert(a@.skip(i as int).len() == 0);
                assert(b@.skip(i as int).len() > 0);
            }
            return true;
        }
        let ca = a.as_str().get_char(i);
        let cb = b.as_str().get_char(i);
        proof {
            assert(a@.skip(i as int)[0] == a@[i as int]);
            assert(b@.skip(i as int)[0] == b@[i as int]);
            assert(a@.skip(i as int).drop_first() =~= a@.skip(i as int + 1));
            assert(b@.skip(i as int).drop_first() =~= b@.skip(i as int + 1));
        }
        if (ca as u32) < (cb as u32) {
            return true;
        }
        if (ca as u32) > (cb as u32) {
            return false;
        }
        i = i + 1;
    }
}

/// Every pair of positions in `s` is ordered: sorted with no duplicates.
pub open spec fn strictly_sorted(s: Seq<Seq<char>>) -> bool {
    forall|i: int, j: int| 0 <= i < j < s.len() ==> str_lt(s[i], s[j])
}

/// `a` and `b` hold the same identifiers, ignoring order and multiplicity.
pub open spec fn same_elements(a: Seq<Seq<char>>, b: Seq<Seq<char>>) -> bool {
    forall|x: Seq<char>| a.contains(x) <==> b.contains(x)
}

/// The first position in `out` (sorted ascending) whose entry is not below
/// `x`: where `x` belongs.
fn insert_pos(out: &Vec<String>, x: &String) -> (j: usize)
    ensures
        j <= out@.len(),
        forall|k: int| 0 <= k < j ==> str_lt(out.deep_view()[k], x@),
        j < out@.len() ==> !str_lt(out.deep_view()[j as int], x@),
{
    let mut j: usize = 0;
    while j < out.len()
        invariant
            j <= out@.len(),
            forall|k: int| 0 <= k < j ==> str_lt(out.deep_view()[k], x@),
        decreases out@.len() - j,
    {
        proof {
            assert(out.deep_view()[j as int] == out@[j as int]@);
        }
        if !str_lt_exec(&out[j], x) {
            return j;
        }
        j = j + 1;
    }
    j
}

/// Sorts the identifiers ascending in the `str_lt` order and removes
/// duplicates: the shape an expectation list takes in a report.
pub fn sort_dedup(v: Vec<String>) -> (r: Vec<String>)
    ensures
        strictly_sorted(r.deep_view()),
        same_elements(r.deep_view(), v.deep_view()),
{
    let mut out: Vec<String> = Vec::new();
    let mut i: usize = 0;
    proof {
        assert(v.deep_view().subrange(0, 0) =~= Seq::<Seq<char>>::empty());
    }
    while i < v.len()
        invariant
            i <= v.len(),
            v.deep_view().len() == v@.len(),
            forall|k: int| 0 <= k < v@.len() ==> v.deep_view()[k] == v@[k]@,
            strictly_sorted(out.deep_view()),
            same_elements(out.deep_view(), v.deep_view().subrange(0, i as int)),
        decreases v.len() - i,
    {
        let x = v[i].clone();
        let ghost xv = x@;
        let ghost pre = out.deep_view();
        let j = insert_pos(&out, &x);
        let mut skip = false;
        if j < out.len() {
            if out[j].eq(&x) {
                skip = true;
                proof {
                    assert(pre[j as int] == xv);
                }
            }
        }
        if !skip {
            proof {
                if j < out@.len() {
                    assert(pre[j as int] == out@[j as int]@);
                    assert(pre[j as int] != xv);
                    lemma_str_lt_total(pre[j as int], xv);
                    assert(str_lt(xv, pre[j as int]));
                }
                assert forall|k: int| j <= k < pre.len() implies str_lt(xv, pre[k]) by {
                    if k > j {
                        lemma_str_lt_total(pre[j as int], xv);
                        lemma_str_lt_trans(xv, pre[j as int], pre[k]);
                    }
                }
            }
            out.insert(j, x);
            proof {
                assert(out.deep_view() =~= pre.insert(j as int, xv));
            }
        }
        proof {
            let pfx = v.deep_view().subrange(0, i as int);
            let pfx2 = v.deep_view().subrange(0, i as int + 1);
            assert(pfx2 =~= pfx.push(xv));
            let cur = out.deep_view();
            if skip {
                assert(cur == pre);
                assert(pre.contains(xv)) by {
                    assert(pre[j as int] == xv);
                }
            } else {
                assert forall|y: Seq<char>| #[trigger] cur.contains(y) implies (pre.contains(y)
                    || y == xv) by {
                    let idx = choose|idx: int| 0 <= idx < cur.len() && cur[idx] == y;
                    if idx < j {
                        assert(pre[idx] == y);
                        assert(pre.contains(y));
                    } else if idx > j {
                        assert(pre[idx - 1] == y);
                        assert(pre.contains(y));
                    }
                }
                assert forall|y: Seq<char>| pre.contains(y) implies cur.contains(y) by {
                    let idx = choose|idx: int| 0 <= idx < pre.len() && pre[idx] == y;
                    if idx < j {
                        assert(cur[idx] == y);
                    } else {
                        assert(cur[idx + 1] == y);
                    }
                }
                assert(cur.contains(xv)) by {
                    assert(cur[j as int] == xv);
                }
            }
            assert forall|y: Seq<char>| #[trigger] pfx2.contains(y) implies cur.contains(y) by {
                let idx = choose|idx: int| 0 <= idx < pfx2.len() && pfx2[idx] == y;
                if idx < i {
                    assert(pfx[idx] == y);
                    assert(pfx.contains(y));
                } else {
                    assert(y == xv);
                }
            }
            assert forall|y: Seq<char>| #[trigger] cur.contains(y) implies pfx2.contains(y) by {
                if y == xv {
                    assert(pfx2[i as int] == xv);
                } else {
                    assert(pre.contains(y));
                    assert(pfx.contains(y));
                    let idx = choose|idx: int| 0 <= idx < pfx.len() && pfx[idx] == y;
                    assert(pfx2[idx] == y);
                }
            }
        }
        i = i + 1;
    }
    proof {
        assert(v.deep_view().subrange(0, i as int) =~= v.deep_view());
    }
    out
}

/// The decimal digit character for a value below ten.
pub open spec fn dec_char(d: nat) -> char {
    if d == 0 {
        '0'
    } else if d == 1 {
        '1'
    } else if d == 2 {
        '2'
    } else if d == 3 {
        '3'
    } else if d == 4 {
        '4'
    } else if d == 5 {
        '5'
    } else if d == 6 {
        '6'
    } else if d == 7 {
        '7'
    } else if d == 8 {
        '8'
    } else {
        '9'
    }
}

/// The decimal rendering of a number, most significant digit first.
pub open spec fn dec_str(n: nat) -> Seq<char>
    decreases n,
{
    if n < 10 {
        seq![dec_char(n)]
    } else {
        dec_str(n / 10).push(dec_char(n % 10))
    }
}

fn digit_str(d: u64) -> (r: &'static str)
    requires
        d < 10,
    ensures
        r@ =~= seq![dec_char(d as nat)],
{
    proof {
        reveal_strlit("0");
        reveal_strlit("1");
        reveal_strlit("2");
        reveal_strlit("3");
        reveal_strlit("4");
        reveal_strlit("5");
        reveal_strlit("6");
        reveal_strlit("7");
        reveal_strlit("8");
        reveal_strlit("9");
    }
    match d {
        0 => "0",
        1 => "1",
        2 => "2",
        3 => "3",
        4 => "4",
        5 => "5",
        6 => "6",
        7 => "7",
        8 => "8",
        _ => "9",
    }
}

/// Renders a number in decimal.
pub fn u64_to_dec(n: u64) -> (r: String)
    ensures
        r@ == dec_str(n as nat),
    decreases n,
{
    if n < 10 {
        let s = digit_str(n).to_owned();
        proof {
            assert(s@ == dec_str(n as nat));
        }
        s
    } else {
        proof {
            assert(n / 10 < n) by (nonlinear_arith)
                requires
                    n >= 10,
            ;
        }
        let mut s = u64_to_dec(n / 10);
        s.append(digit_str(n % 10));
        proof {
            assert(s@ =~= dec_str((n / 10) as nat).push(dec_char((n % 10) as nat)));
        }
        s
    }
}

/// Renders a count in decimal.
pub fn usize_to_dec(n: usize) -> (r: String)
    ensures
        r@ == dec_str(n as nat),
{
    u64_to_dec(n as u64)
}

} // verus!
