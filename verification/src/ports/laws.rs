//! Laws of numbers and port lists in text.
use vstd::prelude::*;

use crate::ports::{
    digit_of, item_ports, listed_ports, number, port_of, port_range, ports_text, position, trimmed,
    trimmed_back, trimmed_front, white_space, PortsErrorView,
};
use crate::text::{decimal, digit_char};

verus! {

/// A text made of decimal digits, at least one.
pub open spec fn all_digits(s: Seq<char>) -> bool {
    s.len() > 0 && forall|i: int| 0 <= i < s.len() ==> '0' <= #[trigger] s[i] <= '9'
}

/// A number in decimal is made of digits and reads back as that number.
pub proof fn law_decimal_reads_back(n: nat)
    ensures
        all_digits(decimal(n)),
        number(decimal(n)) == Some(n as int),
        n > 0 ==> decimal(n)[0] != '0',
    decreases n,
{
    reveal_with_fuel(number, 2);
    let s = decimal(n);
    if n < 10 {
        assert(s.drop_last() =~= Seq::<char>::empty());
        assert(s.last() == digit_char(n as int));
        assert(digit_of(s.last()) == Some(n as int));
    } else {
        law_decimal_reads_back(n / 10);
        let d = (n % 10) as int;
        assert(s.drop_last() =~= decimal(n / 10));
        assert(s.last() == digit_char(d));
        assert(digit_of(s.last()) == Some(d));
        assert(s[0] == decimal(n / 10)[0]);
        assert forall|i: int| 0 <= i < s.len() implies '0' <= #[trigger] s[i] <= '9' by {
            if i < s.len() - 1 {
                assert(s[i] == decimal(n / 10)[i]);
            }
        }
    }
}

/// A port in decimal stands for that port, with or without a plus sign. A number that
/// is no port stands for none.
pub proof fn law_port_reads_back(n: nat)
    ensures
        n <= 65535 ==> port_of(decimal(n)) == Some(n as u16),
        n <= 65535 ==> port_of(seq!['+'] + decimal(n)) == Some(n as u16),
        n > 65535 ==> port_of(decimal(n)) is None,
        port_of(seq!['-'] + decimal(n)) is None,
        port_of(Seq::empty()) is None,
{
    law_decimal_reads_back(n);
    let s = decimal(n);
    assert('0' <= s[0] <= '9');
    assert((seq!['+'] + s).skip(1) =~= s);
    lemma_minus(seq!['-'] + s);
}

proof fn lemma_minus(s: Seq<char>)
    requires
        s.len() > 0,
        s[0] == '-',
    ensures
        number(s) is None,
    decreases s.len(),
{
    if s.len() > 1 {
        assert(s.drop_last()[0] == '-');
        lemma_minus(s.drop_last());
    }
}

proof fn lemma_position_of(s: Seq<char>, c: char, i: int, k: int)
    requires
        0 <= i <= k <= s.len(),
        k < s.len() ==> s[k] == c,
        forall|j: int| i <= j < k ==> s[j] != c,
    ensures
        position(s, c, i) == k,
    decreases k - i,
{
    if i < k {
        lemma_position_of(s, c, i + 1, k);
    }
}

proof fn lemma_digits_stay(s: Seq<char>)
    requires
        all_digits(s),
    ensures
        trimmed(s) == s,
        position(s, '-', 0) == s.len(),
        position(s, ',', 0) == s.len(),
{
    assert('0' <= s[0] <= '9' && '0' <= s[s.len() - 1] <= '9');
    assert(!white_space(s[0]) && !white_space(s.last()));
    lemma_position_of(s, '-', 0, s.len() as int);
    lemma_position_of(s, ',', 0, s.len() as int);
}

/// Two ports with a hyphen between them stand for all from the first to the second,
/// both included, or are refused where the second comes first.
pub proof fn law_range_is_inclusive(a: u16, b: u16, p: u16)
    ensures
        ({
            let item = decimal(a as nat) + seq!['-'] + decimal(b as nat);
            &&& a <= b ==> item_ports(item) is Ok && (item_ports(item)->Ok_0.contains(p) <==> a <= p
                <= b)
            &&& a > b ==> item_ports(item) == Err::<Set<u16>, PortsErrorView>(
                PortsErrorView::EmptyRange(a, b),
            )
        }),
{
    let x = decimal(a as nat);
    let y = decimal(b as nat);
    let item = x + seq!['-'] + y;
    law_port_reads_back(a as nat);
    law_port_reads_back(b as nat);
    law_decimal_reads_back(a as nat);
    law_decimal_reads_back(b as nat);
    lemma_digits_stay(x);
    lemma_digits_stay(y);
    assert forall|j: int| 0 <= j < x.len() implies item[j] != '-' by {
        assert(item[j] == x[j]);
    }
    lemma_position_of(item, '-', 0, x.len() as int);
    assert(item.take(x.len() as int) =~= x);
    assert(item.skip(x.len() as int + 1) =~= y);
}

proof fn lemma_text_from_front(v: Seq<u16>)
    requires
        v.len() > 1,
    ensures
        ports_text(v) == decimal(v[0] as nat) + seq![','] + ports_text(v.skip(1)),
    decreases v.len(),
{
    reveal_strlit(",");
    assert(","@ =~= seq![',']);
    if v.len() == 2 {
        assert(v.drop_last() =~= seq![v[0]]);
        assert(v.skip(1) =~= seq![v[1]]);
        assert(ports_text(v.drop_last()) == decimal(v[0] as nat));
        assert(ports_text(v.skip(1)) == decimal(v[1] as nat));
        assert(v.last() == v[1]);
    } else {
        lemma_text_from_front(v.drop_last());
        assert(v.drop_last().skip(1) =~= v.skip(1).drop_last());
        assert(v.skip(1).last() == v.last());
        assert(ports_text(v) =~= decimal(v[0] as nat) + seq![','] + ports_text(v.skip(1)));
    }
}

/// A list of ports, written and read, stands for those ports.
pub proof fn law_ports_round_trip(v: Seq<u16>)
    ensures
        listed_ports(ports_text(v)) is Ok,
        listed_ports(ports_text(v))->Ok_0 =~= v.to_set(),
    decreases v.len(),
{
    let s = ports_text(v);
    if v.len() == 0 {
        lemma_position_of(s, ',', 0, 0);
        assert(s.take(0) =~= Seq::<char>::empty());
        assert(trimmed(Seq::<char>::empty()) == Seq::<char>::empty());
    } else {
        let x = decimal(v[0] as nat);
        law_decimal_reads_back(v[0] as nat);
        law_port_reads_back(v[0] as nat);
        lemma_digits_stay(x);
        assert(item_ports(x) == Ok::<Set<u16>, PortsErrorView>(port_range(v[0], v[0])));
        if v.len() == 1 {
            assert(s.take(s.len() as int) =~= s);
            assert(v.to_set() =~= port_range(v[0], v[0])) by {
                assert forall|p: u16| v.to_set().contains(p) == port_range(v[0], v[0]).contains(
                    p,
                ) by {
                    if p == v[0] {
                        assert(v.contains(v[0]));
                    }
                }
            }
        } else {
            let rest = ports_text(v.skip(1));
            lemma_text_from_front(v);
            law_ports_round_trip(v.skip(1));
            assert forall|j: int| 0 <= j < x.len() implies s[j] != ',' by {
                assert(s[j] == x[j]);
            }
            lemma_position_of(s, ',', 0, x.len() as int);
            assert(s.take(x.len() as int) =~= x);
            assert(s.skip(x.len() as int + 1) =~= rest);
            let got = port_range(v[0], v[0]).union(v.skip(1).to_set());
            assert(got =~= v.to_set()) by {
                assert forall|p: u16| got.contains(p) == v.to_set().contains(p) by {
                    if v.contains(p) {
                        let k = choose|k: int| 0 <= k < v.len() && v[k] == p;
                        if k > 0 {
                            assert(v.skip(1)[k - 1] == p);
                        }
                    }
                    if v.skip(1).contains(p) {
                        let k = choose|k: int| 0 <= k < v.skip(1).len() && v.skip(1)[k] == p;
                        assert(v[k + 1] == p);
                    }
                    if p == v[0] {
                        assert(v.contains(v[0]));
                    }
                }
            }
        }
    }
}

proof fn lemma_front_trim(s: Seq<char>)
    ensures
        trimmed_front(s).len() <= s.len(),
        trimmed_front(s) == s.skip(s.len() - trimmed_front(s).len()),
        trimmed_front(s).len() > 0 ==> !white_space(trimmed_front(s)[0]),
        forall|i: int| 0 <= i < s.len() - trimmed_front(s).len() ==> white_space(#[trigger] s[i]),
    decreases s.len(),
{
    if s.len() > 0 && white_space(s[0]) {
        let t = s.skip(1);
        lemma_front_trim(t);
        let n = trimmed_front(s).len();
        assert(trimmed_front(s) =~= s.skip(s.len() - n));
        assert forall|i: int| 0 <= i < s.len() - n implies white_space(#[trigger] s[i]) by {
            if i > 0 {
                assert(s[i] == t[i - 1]);
            }
        }
    } else {
        assert(s.skip(0) =~= s);
    }
}

proof fn lemma_back_trim(s: Seq<char>)
    ensures
        trimmed_back(s).len() <= s.len(),
        trimmed_back(s) == s.take(trimmed_back(s).len() as int),
        trimmed_back(s).len() > 0 ==> !white_space(trimmed_back(s).last()),
        forall|i: int| trimmed_back(s).len() <= i < s.len() ==> white_space(#[trigger] s[i]),
    decreases s.len(),
{
    if s.len() > 0 && white_space(s.last()) {
        let t = s.drop_last();
        lemma_back_trim(t);
        let n = trimmed_back(s).len();
        assert(trimmed_back(s) =~= s.take(n as int));
        assert forall|i: int| n <= i < s.len() implies white_space(#[trigger] s[i]) by {
            if i < t.len() {
                assert(s[i] == t[i]);
            }
        }
    } else {
        assert(s.take(s.len() as int) =~= s);
    }
}

/// Trimming takes white space off both ends and nothing else: what is left stands in
/// the text with only white space around it, and neither starts nor ends in any.
pub proof fn law_trimming_takes_only_white_space(s: Seq<char>) -> (k: int)
    ensures
        ({
            let t = trimmed(s);
            &&& 0 <= k <= k + t.len() <= s.len()
            &&& t == s.subrange(k, k + t.len())
            &&& forall|i: int| 0 <= i < k ==> white_space(#[trigger] s[i])
            &&& forall|i: int| k + t.len() <= i < s.len() ==> white_space(#[trigger] s[i])
            &&& t.len() > 0 ==> !white_space(t[0]) && !white_space(t.last())
        }),
{
    let f = trimmed_front(s);
    let t = trimmed(s);
    lemma_front_trim(s);
    lemma_back_trim(f);
    let k = s.len() - f.len();
    assert(t =~= s.subrange(k, k + t.len()));
    assert forall|i: int| k + t.len() <= i < s.len() implies white_space(#[trigger] s[i]) by {
        assert(f[i - k] == s[i]);
    }
    if t.len() > 0 {
        assert(t[0] == f[0]);
    }
    k
}

} // verus!
