//! Distinct leaves stand at distinct paths: the path grammar is read back
//! unambiguously, quoted keys included.
use vstd::prelude::*;

use crate::laws::lemma_quote_escaped_concat;
use crate::text::{decimal, lemma_decimal_injective};
use crate::value::{
    element_leaves, element_path, escaped_key, has_distinct_keys, is_key_char, is_plain_key,
    leaves, member_leaves, member_path, quote_escaped, Value,
};

verus! {

/// One step down from a path that does not end with a dot: `.key` or `[i]`.
pub open spec fn segment_text(s: (bool, Seq<char>, nat)) -> Seq<char> {
    if s.0 {
        seq!['.'] + escaped_key(s.1)
    } else {
        seq!['['] + decimal(s.2) + seq![']']
    }
}

/// The text of several steps, one after another.
pub open spec fn tail_text(segs: Seq<(bool, Seq<char>, nat)>) -> Seq<char>
    decreases segs.len(),
{
    if segs.len() == 0 {
        seq![]
    } else {
        segment_text(segs[0]) + tail_text(segs.drop_first())
    }
}

/// No two leaves stand at the same path.
pub open spec fn distinct_paths(ls: Seq<(Seq<char>, Value)>) -> bool {
    forall|a: int, b: int| 0 <= a < b < ls.len() ==> (#[trigger] ls[a]).0 != (#[trigger] ls[b]).0
}

/// A character that cannot stand in quote-escaped text without a backslash
/// before it, or that is that backslash.
pub open spec fn is_quote_char(c: char) -> bool {
    c == '"' || c == '\\'
}

proof fn lemma_tail_cons(s: (bool, Seq<char>, nat), segs: Seq<(bool, Seq<char>, nat)>)
    ensures
        tail_text(seq![s] + segs) == segment_text(s) + tail_text(segs),
{
    assert((seq![s] + segs).drop_first() =~= segs);
    assert((seq![s] + segs)[0] == s);
}

proof fn lemma_decimal_digits(n: nat)
    ensures
        forall|i: int| 0 <= i < decimal(n).len() ==> '0' <= #[trigger] decimal(n)[i] <= '9',
        decimal(n).len() > 0,
    decreases n,
{
    if n >= 10 {
        lemma_decimal_digits(n / 10);
    }
}

proof fn lemma_tail_start(segs: Seq<(bool, Seq<char>, nat)>)
    ensures
        tail_text(segs).len() > 0 ==> tail_text(segs)[0] == '.' || tail_text(segs)[0] == '[',
{
    if segs.len() > 0 {
        assert(tail_text(segs) == segment_text(segs[0]) + tail_text(segs.drop_first()));
        assert(segment_text(segs[0]).len() > 0);
        assert(tail_text(segs)[0] == segment_text(segs[0])[0]);
    }
}

proof fn lemma_qe_single(c: char)
    ensures
        quote_escaped(seq![c]) == (if c == '"' {
            seq!['\\', '"']
        } else {
            seq![c]
        }),
{
    assert(seq![c].drop_last() =~= Seq::<char>::empty());
    assert(quote_escaped(Seq::<char>::empty()) =~= Seq::<char>::empty());
    assert(quote_escaped(seq![c]) =~= (if c == '"' {
        seq!['\\', '"']
    } else {
        seq![c]
    }));
}

proof fn lemma_qe_front(r: Seq<char>)
    requires
        r.len() > 0,
    ensures
        quote_escaped(r) == quote_escaped(seq![r[0]]) + quote_escaped(r.drop_first()),
{
    assert(r =~= seq![r[0]] + r.drop_first());
    lemma_quote_escaped_concat(seq![r[0]], r.drop_first());
}

proof fn lemma_qe_empty(r: Seq<char>)
    ensures
        quote_escaped(r).len() == 0 <==> r.len() == 0,
{
    if r.len() == 0 {
        assert(r =~= Seq::<char>::empty());
    } else {
        lemma_qe_front(r);
        lemma_qe_single(r[0]);
    }
}

/// In escaped text a `"` always follows a backslash.
proof fn lemma_qe_quote_preceded(r: Seq<char>, i: int)
    requires
        0 <= i < quote_escaped(r).len(),
        quote_escaped(r)[i] == '"',
    ensures
        i > 0,
        quote_escaped(r)[i - 1] == '\\',
    decreases r.len(),
{
    lemma_qe_empty(r);
    let p = quote_escaped(r.drop_last());
    if i < p.len() {
        if r.last() == '"' {
            assert(quote_escaped(r)[i] == p[i]);
        } else {
            assert(quote_escaped(r)[i] == p[i]);
        }
        lemma_qe_quote_preceded(r.drop_last(), i);
        assert(quote_escaped(r)[i - 1] == p[i - 1]);
    } else if r.last() == '"' {
        assert(quote_escaped(r) == p + seq!['\\', '"']);
        assert(quote_escaped(r)[p.len() as int] == '\\');
    } else {
        assert(quote_escaped(r) == p.push(r.last()));
    }
}

/// Escaped text that starts with characters needing no escape starts the
/// same way as the text itself.
proof fn lemma_qe_plain_prefix(r: Seq<char>, l: Seq<char>)
    requires
        quote_escaped(r).len() >= l.len(),
        quote_escaped(r).subrange(0, l.len() as int) == l,
        forall|i: int| 0 <= i < l.len() ==> !is_quote_char(#[trigger] l[i]),
    ensures
        r.len() >= l.len(),
        r.subrange(0, l.len() as int) == l,
        quote_escaped(r.subrange(l.len() as int, r.len() as int)) == quote_escaped(r).subrange(
            l.len() as int,
            quote_escaped(r).len() as int,
        ),
    decreases l.len(),
{
    let q = quote_escaped(r);
    if l.len() == 0 {
        assert(r.subrange(0, 0) =~= l);
        assert(r.subrange(0, r.len() as int) =~= r);
        assert(q.subrange(0, q.len() as int) =~= q);
    } else {
        lemma_qe_empty(r);
        lemma_qe_front(r);
        lemma_qe_single(r[0]);
        assert(q[0] == l[0]);
        let r2 = r.drop_first();
        let q2 = quote_escaped(r2);
        assert(r[0] != '"');
        assert(q2 =~= q.subrange(1, q.len() as int));
        assert(q2.subrange(0, l.len() - 1) =~= l.drop_first());
        lemma_qe_plain_prefix(r2, l.drop_first());
        assert(r.subrange(0, l.len() as int) =~= seq![r[0]] + r2.subrange(0, l.len() - 1));
        assert(r.subrange(l.len() as int, r.len() as int) =~= r2.subrange(l.len() - 1, r2.len() as int));
        assert(q.subrange(l.len() as int, q.len() as int) =~= q2.subrange(l.len() - 1, q2.len() as int));
    }
}

/// A segment without quotes: a plain key or an index.
proof fn lemma_unquoted_segment(s: (bool, Seq<char>, nat))
    requires
        !(s.0 && !is_plain_key(s.1)),
    ensures
        forall|i: int| 0 <= i < segment_text(s).len() ==> !is_quote_char(#[trigger] segment_text(s)[i]),
        segment_text(s).len() >= 2,
        forall|i: int| 1 <= i < segment_text(s).len() ==> #[trigger] segment_text(s)[i] != '.',
{
    let t = segment_text(s);
    if s.0 {
        assert forall|i: int| 0 <= i < t.len() implies !is_quote_char(#[trigger] t[i]) by {
            if i > 0 {
                assert(t[i] == s.1[i - 1]);
                assert(is_key_char(s.1[i - 1]));
            }
        }
        assert forall|i: int| 1 <= i < t.len() implies #[trigger] t[i] != '.' by {
            assert(t[i] == s.1[i - 1]);
            assert(is_key_char(s.1[i - 1]));
        }
    } else {
        lemma_decimal_digits(s.2);
        assert forall|i: int| 0 <= i < t.len() implies !is_quote_char(#[trigger] t[i]) by {
            if 0 < i < t.len() - 1 {
                assert(t[i] == decimal(s.2)[i - 1]);
            }
        }
        assert forall|i: int| 1 <= i < t.len() implies #[trigger] t[i] != '.' by {
            if i < t.len() - 1 {
                assert(t[i] == decimal(s.2)[i - 1]);
            }
        }
    }
}

/// What follows a path never reads as the end of a quoted key followed by
/// more steps.
proof fn lemma_tail_not_closing(
    s2: Seq<(bool, Seq<char>, nat)>,
    r: Seq<char>,
    s1: Seq<(bool, Seq<char>, nat)>,
)
    ensures
        tail_text(s2) != quote_escaped(r) + seq!['"'] + tail_text(s1),
    decreases tail_text(s2).len(),
{
    let t2 = tail_text(s2);
    let qr = quote_escaped(r);
    let rhs = qr + seq!['"'] + tail_text(s1);
    let m = qr.len() as int;
    if t2 == rhs {
        assert(rhs[m] == '"');
        if s2.len() == 0 {
            assert(t2.len() == 0);
        } else {
            let s = s2[0];
            let seg = segment_text(s);
            let rest = s2.drop_first();
            assert(t2 == seg + tail_text(rest));
            if s.0 && !is_plain_key(s.1) {
                let k = s.1;
                assert(seg =~= seq!['.', '"'] + quote_escaped(k) + seq!['"']);
                assert(t2[0] == '.');
                assert(t2[1] == '"');
                if m == 0 {
                    assert(rhs[0] == '"');
                } else if m == 1 {
                    assert(qr.subrange(0, 1) =~= seq!['.']);
                    lemma_qe_plain_prefix(r, seq!['.']);
                    assert(qr.subrange(1, 1) =~= Seq::<char>::empty());
                    lemma_qe_empty(r.subrange(1, r.len() as int));
                    assert(tail_text(s1) =~= rhs.subrange(2, rhs.len() as int));
                    assert(t2.subrange(2, t2.len() as int) =~= quote_escaped(k) + seq!['"']
                        + tail_text(rest));
                    lemma_tail_not_closing(s1, k, rest);
                } else {
                    assert(qr[1] == t2[1]);
                    lemma_qe_quote_preceded(r, 1);
                    assert(qr[0] == t2[0]);
                }
            } else {
                lemma_unquoted_segment(s);
                let l = seg.len() as int;
                if m < l {
                    assert(t2[m] == seg[m]);
                } else {
                    assert forall|i: int| 0 <= i < l implies qr.subrange(0, l)[i] == seg[i] by {
                        assert(qr[i] == rhs[i]);
                        assert(t2[i] == seg[i]);
                    }
                    assert(qr.subrange(0, l) =~= seg);
                    lemma_qe_plain_prefix(r, seg);
                    let r2 = r.subrange(l, r.len() as int);
                    assert(tail_text(rest) =~= t2.subrange(l, t2.len() as int));
                    assert(t2.subrange(l, t2.len() as int) =~= quote_escaped(r2) + seq!['"']
                        + tail_text(s1));
                    lemma_tail_not_closing(rest, r2, s1);
                }
            }
        }
    }
}

/// The closing quote of a quoted key is found again from the text that
/// follows the opening one.
proof fn lemma_quoted_body_unique(
    a: Seq<char>,
    b: Seq<char>,
    s1: Seq<(bool, Seq<char>, nat)>,
    s2: Seq<(bool, Seq<char>, nat)>,
)
    requires
        quote_escaped(a) + seq!['"'] + tail_text(s1) == quote_escaped(b) + seq!['"'] + tail_text(s2),
    ensures
        a == b,
    decreases a.len(),
{
    let lhs = quote_escaped(a) + seq!['"'] + tail_text(s1);
    let rhs = quote_escaped(b) + seq!['"'] + tail_text(s2);
    lemma_qe_empty(a);
    lemma_qe_empty(b);
    if a.len() == 0 && b.len() == 0 {
        assert(a =~= b);
    } else if a.len() == 0 {
        assert(lhs[0] == '"');
        assert(rhs[0] == quote_escaped(b)[0]);
        if quote_escaped(b)[0] == '"' {
            lemma_qe_quote_preceded(b, 0);
        }
    } else if b.len() == 0 {
        assert(rhs[0] == '"');
        assert(lhs[0] == quote_escaped(a)[0]);
        if quote_escaped(a)[0] == '"' {
            lemma_qe_quote_preceded(a, 0);
        }
    } else {
        lemma_qe_front(a);
        lemma_qe_front(b);
        let ca = a[0];
        let cb = b[0];
        let a2 = a.drop_first();
        let b2 = b.drop_first();
        lemma_qe_single(ca);
        lemma_qe_single(cb);
        lemma_qe_empty(a2);
        lemma_qe_empty(b2);
        if ca == cb {
            let w = quote_escaped(seq![ca]).len() as int;
            assert(lhs.subrange(w, lhs.len() as int) =~= quote_escaped(a2) + seq!['"'] + tail_text(s1));
            assert(rhs.subrange(w, rhs.len() as int) =~= quote_escaped(b2) + seq!['"'] + tail_text(s2));
            lemma_quoted_body_unique(a2, b2, s1, s2);
            assert(a =~= seq![ca] + a2);
            assert(b =~= seq![cb] + b2);
        } else if ca != '"' && cb != '"' {
            assert(lhs[0] == ca);
            assert(rhs[0] == cb);
        } else if ca == '"' {
            assert(lhs[0] == '\\');
            assert(lhs[1] == '"');
            assert(rhs[0] == cb);
            if b2.len() > 0 {
                assert(rhs[1] == quote_escaped(b2)[0]);
                if quote_escaped(b2)[0] == '"' {
                    lemma_qe_quote_preceded(b2, 0);
                }
            } else {
                assert(quote_escaped(b2) =~= Seq::<char>::empty());
                assert(tail_text(s2) =~= rhs.subrange(2, rhs.len() as int));
                assert(lhs.subrange(2, lhs.len() as int) =~= quote_escaped(a2) + seq!['"'] + tail_text(s1));
                lemma_tail_not_closing(s2, a2, s1);
            }
        } else {
            assert(rhs[0] == '\\');
            assert(rhs[1] == '"');
            assert(lhs[0] == ca);
            if a2.len() > 0 {
                assert(lhs[1] == quote_escaped(a2)[0]);
                if quote_escaped(a2)[0] == '"' {
                    lemma_qe_quote_preceded(a2, 0);
                }
            } else {
                assert(quote_escaped(a2) =~= Seq::<char>::empty());
                assert(tail_text(s1) =~= lhs.subrange(2, lhs.len() as int));
                assert(rhs.subrange(2, rhs.len() as int) =~= quote_escaped(b2) + seq!['"'] + tail_text(s2));
                lemma_tail_not_closing(s1, b2, s2);
            }
        }
    }
}

/// A key step is read back unambiguously from the text it starts.
proof fn lemma_key_segments_unique(
    a: Seq<char>,
    b: Seq<char>,
    s1: Seq<(bool, Seq<char>, nat)>,
    s2: Seq<(bool, Seq<char>, nat)>,
)
    requires
        escaped_key(a) + tail_text(s1) == escaped_key(b) + tail_text(s2),
    ensures
        a == b,
{
    let lhs = escaped_key(a) + tail_text(s1);
    let rhs = escaped_key(b) + tail_text(s2);
    lemma_tail_start(s1);
    lemma_tail_start(s2);
    if is_plain_key(a) && is_plain_key(b) {
        if a.len() == b.len() {
            assert(a =~= lhs.subrange(0, a.len() as int));
            assert(b =~= rhs.subrange(0, b.len() as int));
        } else if a.len() < b.len() {
            if tail_text(s1).len() > 0 {
                assert(lhs[a.len() as int] == tail_text(s1)[0]);
                assert(rhs[a.len() as int] == b[a.len() as int]);
                assert(is_key_char(b[a.len() as int]));
            }
        } else {
            if tail_text(s2).len() > 0 {
                assert(rhs[b.len() as int] == tail_text(s2)[0]);
                assert(lhs[b.len() as int] == a[b.len() as int]);
                assert(is_key_char(a[b.len() as int]));
            }
        }
    } else if is_plain_key(a) && !is_plain_key(b) {
        assert(lhs[0] == a[0]);
        assert(is_key_char(a[0]));
        assert(rhs[0] == '"');
    } else if !is_plain_key(a) && is_plain_key(b) {
        assert(rhs[0] == b[0]);
        assert(is_key_char(b[0]));
        assert(lhs[0] == '"');
    } else {
        assert(lhs.subrange(1, lhs.len() as int) =~= quote_escaped(a) + seq!['"'] + tail_text(s1));
        assert(rhs.subrange(1, rhs.len() as int) =~= quote_escaped(b) + seq!['"'] + tail_text(s2));
        lemma_quoted_body_unique(a, b, s1, s2);
    }
}

/// An index step is read back unambiguously from the text it starts.
proof fn lemma_index_segments_unique(
    i: nat,
    j: nat,
    s1: Seq<(bool, Seq<char>, nat)>,
    s2: Seq<(bool, Seq<char>, nat)>,
)
    requires
        seq!['['] + decimal(i) + seq![']'] + tail_text(s1) == seq!['['] + decimal(j) + seq![']']
            + tail_text(s2),
    ensures
        i == j,
{
    let lhs = seq!['['] + decimal(i) + seq![']'] + tail_text(s1);
    let rhs = seq!['['] + decimal(j) + seq![']'] + tail_text(s2);
    lemma_decimal_digits(i);
    lemma_decimal_digits(j);
    let a = decimal(i);
    let b = decimal(j);
    if a.len() == b.len() {
        assert(a =~= lhs.subrange(1, 1 + a.len() as int));
        assert(b =~= rhs.subrange(1, 1 + b.len() as int));
        lemma_decimal_injective(i, j);
    } else if a.len() < b.len() {
        assert(lhs[1 + a.len() as int] == ']');
        assert(rhs[1 + a.len() as int] == b[a.len() as int]);
    } else {
        assert(rhs[1 + b.len() as int] == ']');
        assert(lhs[1 + b.len() as int] == a[b.len() as int]);
    }
}

/// What stands before a member's escaped key: the parent path, and a dot
/// unless it already ends with one.
pub open spec fn member_prefix(q: Seq<char>) -> Seq<char> {
    if q.len() > 0 && q.last() == '.' {
        q
    } else {
        q.push('.')
    }
}

pub open spec fn ends_with_dot(q: Seq<char>) -> bool {
    q.len() > 0 && q.last() == '.'
}

/// `p` is `q` followed by whole steps.
pub open spec fn below(p: Seq<char>, q: Seq<char>) -> bool {
    exists|segs: Seq<(bool, Seq<char>, nat)>| p == q + #[trigger] tail_text(segs)
}

/// `p` lies below one of the first `n` members of `m`.
pub open spec fn below_member(p: Seq<char>, pre: Seq<char>, m: Seq<(String, Value)>, n: int) -> bool {
    exists|i: int, segs: Seq<(bool, Seq<char>, nat)>|
        #![trigger m[i], tail_text(segs)]
        0 <= i < n && p == pre + escaped_key(m[i].0@) + tail_text(segs)
}

/// `p` lies below one of the first `n` elements of the array at `q`.
pub open spec fn below_element(p: Seq<char>, q: Seq<char>, n: int) -> bool {
    exists|i: int, segs: Seq<(bool, Seq<char>, nat)>|
        #![trigger element_path(q, i as nat), tail_text(segs)]
        0 <= i < n && p == element_path(q, i as nat) + tail_text(segs)
}

proof fn lemma_child_paths_no_dot(q: Seq<char>, k: Seq<char>, i: nat)
    ensures
        !ends_with_dot(member_path(q, k)),
        !ends_with_dot(element_path(q, i)),
        member_path(q, k) == member_prefix(q) + escaped_key(k),
{
    let e = escaped_key(k);
    if is_plain_key(k) {
        assert(is_key_char(k[k.len() - 1]));
    }
    assert(member_path(q, k).last() == e.last());
}

/// Leaves below `q` stand at distinct paths, each `q` followed by whole
/// steps when `q` does not end with a dot.
proof fn lemma_tree_paths(q: Seq<char>, v: Value)
    requires
        has_distinct_keys(v),
    ensures
        distinct_paths(leaves(q, v)),
        !ends_with_dot(q) ==> forall|j: int|
            0 <= j < leaves(q, v).len() ==> below(#[trigger] leaves(q, v)[j].0, q),
    decreases v, 1nat, 0nat,
{
    let ls = leaves(q, v);
    match v {
        Value::Object(m) => {
            if m@.len() > 0 {
                lemma_member_paths(q, v, m@.len());
                assert(ls == member_leaves(q, v, m@.len()));
                if !ends_with_dot(q) {
                    assert forall|j: int| 0 <= j < ls.len() implies below(#[trigger] ls[j].0, q) by {
                        assert(below_member(ls[j].0, member_prefix(q), m@, m@.len() as int));
                        let (i, segs) = choose|i: int, segs: Seq<(bool, Seq<char>, nat)>|
                            #![trigger m@[i], tail_text(segs)]
                            0 <= i < m@.len() && ls[j].0 == member_prefix(q) + escaped_key(m@[i].0@)
                                + tail_text(segs);
                        let s = (true, m@[i].0@, 0nat);
                        lemma_tail_cons(s, segs);
                        assert(ls[j].0 =~= q + tail_text(seq![s] + segs));
                    }
                }
            } else {
                assert(ls == seq![(q, v)]);
                assert(q + tail_text(Seq::<(bool, Seq<char>, nat)>::empty()) =~= q);
            }
        },
        Value::Array(a) => {
            if a@.len() > 0 {
                lemma_element_paths(q, v, a@.len());
                assert(ls == element_leaves(q, v, a@.len()));
                if !ends_with_dot(q) {
                    assert forall|j: int| 0 <= j < ls.len() implies below(#[trigger] ls[j].0, q) by {
                        assert(below_element(ls[j].0, q, a@.len() as int));
                        let (i, segs) = choose|i: int, segs: Seq<(bool, Seq<char>, nat)>|
                            #![trigger element_path(q, i as nat), tail_text(segs)]
                            0 <= i < a@.len() && ls[j].0 == element_path(q, i as nat) + tail_text(segs);
                        let s = (false, Seq::<char>::empty(), i as nat);
                        lemma_tail_cons(s, segs);
                        assert(ls[j].0 =~= q + tail_text(seq![s] + segs));
                    }
                }
            } else {
                assert(ls == seq![(q, v)]);
                assert(q + tail_text(Seq::<(bool, Seq<char>, nat)>::empty()) =~= q);
            }
        },
        _ => {
            assert(ls == seq![(q, v)]);
            assert(q + tail_text(Seq::<(bool, Seq<char>, nat)>::empty()) =~= q);
        },
    }
}

/// The leaves of the first `n` members stand at distinct paths, each below
/// one of those members.
proof fn lemma_member_paths(q: Seq<char>, v: Value, n: nat)
    requires
        has_distinct_keys(v),
        v is Object,
        n <= v->Object_0@.len(),
    ensures
        distinct_paths(member_leaves(q, v, n)),
        forall|j: int|
            0 <= j < member_leaves(q, v, n).len() ==> below_member(
                #[trigger] member_leaves(q, v, n)[j].0,
                member_prefix(q),
                v->Object_0@,
                n as int,
            ),
    decreases v, 0nat, n,
{
    let m = v->Object_0@;
    let pre = member_prefix(q);
    if n > 0 {
        let k = m[n - 1].0@;
        let c = m[n - 1].1;
        let cp = member_path(q, k);
        lemma_member_paths(q, v, (n - 1) as nat);
        assert(has_distinct_keys(c));
        lemma_tree_paths(cp, c);
        lemma_child_paths_no_dot(q, k, 0);
        let done = member_leaves(q, v, (n - 1) as nat);
        let more = leaves(cp, c);
        let all = member_leaves(q, v, n);
        assert(all == done + more);
        assert forall|j: int| 0 <= j < all.len() implies below_member(
            #[trigger] all[j].0,
            pre,
            m,
            n as int,
        ) by {
            if j < done.len() {
                assert(all[j] == done[j]);
                assert(below_member(done[j].0, pre, m, n - 1));
                let (i, segs) = choose|i: int, segs: Seq<(bool, Seq<char>, nat)>|
                    #![trigger m[i], tail_text(segs)]
                    0 <= i < n - 1 && done[j].0 == pre + escaped_key(m[i].0@) + tail_text(segs);
                assert(0 <= i < n && all[j].0 == pre + escaped_key(m[i].0@) + tail_text(segs));
            } else {
                assert(all[j] == more[j - done.len()]);
                assert(below(more[j - done.len()].0, cp));
                let segs = choose|segs: Seq<(bool, Seq<char>, nat)>|
                    more[j - done.len()].0 == cp + #[trigger] tail_text(segs);
                assert(all[j].0 =~= pre + escaped_key(m[n - 1].0@) + tail_text(segs));
            }
        }
        assert forall|x: int, y: int| 0 <= x < y < all.len() implies (#[trigger] all[x]).0 != (
        #[trigger] all[y]).0 by {
            if y < done.len() {
                assert(all[x] == done[x]);
                assert(all[y] == done[y]);
            } else if x >= done.len() {
                assert(all[x] == more[x - done.len()]);
                assert(all[y] == more[y - done.len()]);
            } else {
                assert(all[x] == done[x]);
                assert(all[y] == more[y - done.len()]);
                assert(below_member(done[x].0, pre, m, n - 1));
                let (i, s1) = choose|i: int, segs: Seq<(bool, Seq<char>, nat)>|
                    #![trigger m[i], tail_text(segs)]
                    0 <= i < n - 1 && done[x].0 == pre + escaped_key(m[i].0@) + tail_text(segs);
                assert(below(more[y - done.len()].0, cp));
                let s2 = choose|segs: Seq<(bool, Seq<char>, nat)>|
                    more[y - done.len()].0 == cp + #[trigger] tail_text(segs);
                if all[x].0 == all[y].0 {
                    let p = all[x].0;
                    assert(p.subrange(pre.len() as int, p.len() as int) =~= escaped_key(m[i].0@)
                        + tail_text(s1));
                    assert(p.subrange(pre.len() as int, p.len() as int) =~= escaped_key(k)
                        + tail_text(s2));
                    lemma_key_segments_unique(m[i].0@, k, s1, s2);
                    assert(m[i].0@ != m[n - 1].0@);
                }
            }
        }
    }
}

/// The leaves of the first `n` elements stand at distinct paths, each below
/// one of those elements.
proof fn lemma_element_paths(q: Seq<char>, v: Value, n: nat)
    requires
        has_distinct_keys(v),
        v is Array,
        n <= v->Array_0@.len(),
    ensures
        distinct_paths(element_leaves(q, v, n)),
        forall|j: int|
            0 <= j < element_leaves(q, v, n).len() ==> below_element(
                #[trigger] element_leaves(q, v, n)[j].0,
                q,
                n as int,
            ),
    decreases v, 0nat, n,
{
    let a = v->Array_0@;
    if n > 0 {
        let c = a[n - 1];
        let cp = element_path(q, (n - 1) as nat);
        lemma_element_paths(q, v, (n - 1) as nat);
        assert(has_distinct_keys(c));
        lemma_tree_paths(cp, c);
        lemma_child_paths_no_dot(q, Seq::<char>::empty(), (n - 1) as nat);
        let done = element_leaves(q, v, (n - 1) as nat);
        let more = leaves(cp, c);
        let all = element_leaves(q, v, n);
        assert(all == done + more);
        assert forall|j: int| 0 <= j < all.len() implies below_element(
            #[trigger] all[j].0,
            q,
            n as int,
        ) by {
            if j < done.len() {
                assert(all[j] == done[j]);
                assert(below_element(done[j].0, q, n - 1));
                let (i, segs) = choose|i: int, segs: Seq<(bool, Seq<char>, nat)>|
                    #![trigger element_path(q, i as nat), tail_text(segs)]
                    0 <= i < n - 1 && done[j].0 == element_path(q, i as nat) + tail_text(segs);
                assert(0 <= i < n && all[j].0 == element_path(q, i as nat) + tail_text(segs));
            } else {
                assert(all[j] == more[j - done.len()]);
                assert(below(more[j - done.len()].0, cp));
                let segs = choose|segs: Seq<(bool, Seq<char>, nat)>|
                    more[j - done.len()].0 == cp + #[trigger] tail_text(segs);
                assert(all[j].0 == element_path(q, (n - 1) as nat) + tail_text(segs));
            }
        }
        assert forall|x: int, y: int| 0 <= x < y < all.len() implies (#[trigger] all[x]).0 != (
        #[trigger] all[y]).0 by {
            if y < done.len() {
                assert(all[x] == done[x]);
                assert(all[y] == done[y]);
            } else if x >= done.len() {
                assert(all[x] == more[x - done.len()]);
                assert(all[y] == more[y - done.len()]);
            } else {
                assert(all[x] == done[x]);
                assert(all[y] == more[y - done.len()]);
                assert(below_element(done[x].0, q, n - 1));
                let (i, s1) = choose|i: int, segs: Seq<(bool, Seq<char>, nat)>|
                    #![trigger element_path(q, i as nat), tail_text(segs)]
                    0 <= i < n - 1 && done[x].0 == element_path(q, i as nat) + tail_text(segs);
                assert(below(more[y - done.len()].0, cp));
                let s2 = choose|segs: Seq<(bool, Seq<char>, nat)>|
                    more[y - done.len()].0 == cp + #[trigger] tail_text(segs);
                if all[x].0 == all[y].0 {
                    let p = all[x].0;
                    assert(p.subrange(q.len() as int, p.len() as int) =~= seq!['['] + decimal(
                        i as nat,
                    ) + seq![']'] + tail_text(s1));
                    assert(p.subrange(q.len() as int, p.len() as int) =~= seq!['['] + decimal(
                        (n - 1) as nat,
                    ) + seq![']'] + tail_text(s2));
                    lemma_index_segments_unique(i as nat, (n - 1) as nat, s1, s2);
                }
            }
        }
    }
}

/// In a value whose objects hold each key at most once, no two leaves stand
/// at the same path, whatever the path of the root.
pub proof fn lemma_leaf_paths_distinct(path: Seq<char>, v: Value)
    requires
        has_distinct_keys(v),
    ensures
        forall|a: int, b: int|
            0 <= a < b < leaves(path, v).len() ==> (#[trigger] leaves(path, v)[a]).0 != (
            #[trigger] leaves(path, v)[b]).0,
{
    lemma_tree_paths(path, v);
}

} // verus!
