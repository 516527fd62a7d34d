//! Port specifications: the default well-known port set, parsing of
//! comma-separated port lists (invalid entries silently dropped), and the
//! collection of the open ports out of a probed list.

use vstd::prelude::*;

use crate::text::{
    all_digits, chars_eq, dec_val, parse_decimal, split_chars, split_on, str_chars, trim_chars,
    trim_spec,
};

verus! {

/// The well-known ports probed when scanning is requested without a list.
pub open spec fn common_ports_seq() -> Seq<u16> {
    seq![21u16, 22u16, 23u16, 53u16, 80u16, 110u16, 143u16, 443u16, 3306u16, 8080u16]
}

/// The well-known ports probed when scanning is requested without a list.
pub fn common_ports() -> (r: Vec<u16>)
    ensures
        r@ == common_ports_seq(),
{
    let mut v: Vec<u16> = Vec::new();
    v.push(21);
    v.push(22);
    v.push(23);
    v.push(53);
    v.push(80);
    v.push(110);
    v.push(143);
    v.push(443);
    v.push(3306);
    v.push(8080);
    assert(v@ =~= common_ports_seq());
    v
}

/// The digits of a port token: an optional single leading sign is allowed
/// and ignored.
pub open spec fn port_digits(s: Seq<char>) -> Seq<char> {
    if s.len() >= 1 && s[0] == '+' {
        s.drop_first()
    } else {
        s
    }
}

/// The text of one port number, once trimmed: an optional `'+'`, then
/// digits with value at most 65535.
pub open spec fn is_port_text(s: Seq<char>) -> bool {
    &&& port_digits(s).len() >= 1
    &&& all_digits(port_digits(s))
    &&& dec_val(port_digits(s)) <= 65535
}

/// The ports the already-split entries of a list denote, in order, entries
/// that are not a port number dropped.
pub open spec fn ports_of_parts(parts: Seq<Seq<char>>) -> Seq<u16>
    decreases parts.len(),
{
    if parts.len() == 0 {
        Seq::empty()
    } else {
        let rest = ports_of_parts(parts.drop_last());
        let t = trim_spec(parts.last());
        if is_port_text(t) {
            rest + seq![dec_val(port_digits(t)) as u16]
        } else {
            rest
        }
    }
}

/// The ports a comma-separated list denotes.
pub open spec fn parse_port_list_spec(s: Seq<char>) -> Seq<u16> {
    ports_of_parts(split_on(s, ','))
}

/// The token without its optional leading sign.
fn drop_leading_plus(t: &Vec<char>) -> (r: Vec<char>)
    ensures
        r@ == port_digits(t@),
{
    let off: usize = if t.len() >= 1 && t[0] == '+' {
        1
    } else {
        0
    };
    let mut r: Vec<char> = Vec::new();
    let mut j: usize = off;
    while j < t.len()
        invariant
            off <= j <= t@.len(),
            r@ == t@.subrange(off as int, j as int),
        decreases t@.len() - j,
    {
        r.push(t[j]);
        j = j + 1;
        assert(r@ =~= t@.subrange(off as int, j as int));
    }
    proof {
        if off == 1 {
            assert(t@.subrange(1, t@.len() as int) =~= t@.drop_first());
        } else {
            assert(t@.subrange(0, t@.len() as int) =~= t@);
        }
    }
    r
}

/// Parses one comma-separated list entry, once trimmed.
fn parse_port_entry(t: &Vec<char>) -> (r: Option<u16>)
    ensures
        r is Some <==> is_port_text(t@),
        r is Some ==> r->0 as int == dec_val(port_digits(t@)),
{
    let digits = drop_leading_plus(t);
    match parse_decimal(&digits) {
        Some(v) => {
            if v <= 65535 {
                Some(v as u16)
            } else {
                None
            }
        },
        None => None,
    }
}

/// Parses a comma-separated port list; entries that do not parse as a port
/// number are silently dropped, never reported.
pub fn parse_port_list(s: &str) -> (r: Vec<u16>)
    ensures
        r@ == parse_port_list_spec(s@),
{
    let chars = str_chars(s);
    let parts = split_chars(&chars, ',');
    proof {
        assert(parts.deep_view().len() == parts@.len());
        assert(forall|i: int|
            0 <= i < parts@.len() ==> parts.deep_view()[i] == #[trigger] parts@[i]@);
    }
    let ghost sp = split_on(s@, ',');
    let mut r: Vec<u16> = Vec::new();
    let mut i: usize = 0;
    proof {
        assert(sp.take(0) =~= Seq::<Seq<char>>::empty());
    }
    while i < parts.len()
        invariant
            i <= parts@.len(),
            sp == split_on(s@, ','),
            parts.deep_view() == sp,
            parts@.len() == sp.len(),
            forall|j: int| 0 <= j < parts@.len() ==> sp[j] == #[trigger] parts@[j]@,
            r@ == ports_of_parts(sp.take(i as int)),
        decreases parts@.len() - i,
    {
        let t = trim_chars(&parts[i]);
        proof {
            assert(sp.take(i + 1).drop_last() =~= sp.take(i as int));
            assert(sp.take(i + 1).last() == parts@[i as int]@);
        }
        match parse_port_entry(&t) {
            Some(p) => {
                r.push(p);
                assert(r@ =~= ports_of_parts(sp.take(i + 1)));
            },
            None => {
                assert(r@ =~= ports_of_parts(sp.take(i + 1)));
            },
        }
        i = i + 1;
    }
    proof {
        assert(sp.take(parts@.len() as int) =~= sp);
    }
    r
}

/// The ports an optional port specification requests: none when port
/// scanning was not asked for, the default well-known set for the bare
/// request, and the listed ports otherwise.
pub open spec fn port_choice_spec(choice: Option<Seq<char>>) -> Seq<u16> {
    match choice {
        Option::None => Seq::empty(),
        Option::Some(s) => if s == "default"@ {
            common_ports_seq()
        } else {
            parse_port_list_spec(s)
        },
    }
}

/// Turns the optional port specification handed in from the outside into
/// the list of ports to probe.
pub fn parse_port_choice(choice: Option<&str>) -> (r: Vec<u16>)
    ensures
        choice matches Some(s) ==> r@ == port_choice_spec(Some(s@)),
        choice is None ==> r@ == Seq::<u16>::empty(),
{
    match choice {
        Option::None => Vec::new(),
        Option::Some(s) => {
            let chars = str_chars(s);
            let sentinel = str_chars("default");
            if chars_eq(&chars, &sentinel) {
                common_ports()
            } else {
                parse_port_list(s)
            }
        },
    }
}

/// The ports of `ports` whose probe flag is set, in probing order.
pub open spec fn open_subseq(ports: Seq<u16>, open: Seq<bool>) -> Seq<u16>
    recommends
        ports.len() == open.len(),
    decreases ports.len(),
{
    if ports.len() == 0 || open.len() == 0 {
        Seq::empty()
    } else {
        let rest = open_subseq(ports.drop_last(), open.drop_last());
        if open.last() {
            rest + seq![ports.last()]
        } else {
            rest
        }
    }
}

/// Keeps the ports found open: `open[i]` says whether the connection
/// attempt to `ports[i]` fully succeeded.  Order of the probed list is
/// preserved.
pub fn collect_open_ports(ports: &Vec<u16>, open: &Vec<bool>) -> (r: Vec<u16>)
    requires
        ports@.len() == open@.len(),
    ensures
        r@ == open_subseq(ports@, open@),
{
    let mut r: Vec<u16> = Vec::new();
    let mut i: usize = 0;
    proof {
        assert(ports@.take(0) =~= Seq::<u16>::empty());
        assert(open@.take(0) =~= Seq::<bool>::empty());
    }
    while i < ports.len()
        invariant
            ports@.len() == open@.len(),
            i <= ports@.len(),
            r@ == open_subseq(ports@.take(i as int), open@.take(i as int)),
        decreases ports@.len() - i,
    {
        proof {
            assert(ports@.take(i + 1).drop_last() =~= ports@.take(i as int));
            assert(open@.take(i + 1).drop_last() =~= open@.take(i as int));
            assert(ports@.take(i + 1).last() == ports@[i as int]);
            assert(open@.take(i + 1).last() == open@[i as int]);
        }
        if open[i] {
            r.push(ports[i]);
            assert(r@ =~= open_subseq(ports@.take(i + 1), open@.take(i + 1)));
        } else {
            assert(r@ =~= open_subseq(ports@.take(i + 1), open@.take(i + 1)));
        }
        i = i + 1;
    }
    proof {
        assert(ports@.take(ports@.len() as int) =~= ports@);
        assert(open@.take(open@.len() as int) =~= open@);
    }
    r
}

/// Every port reported open was one of the probed ports: the open set is a
/// subset of the requested set.
pub proof fn lemma_open_ports_subset(ports: Seq<u16>, open: Seq<bool>)
    requires
        ports.len() == open.len(),
    ensures
        forall|p: u16| open_subseq(ports, open).contains(p) ==> ports.contains(p),
    decreases ports.len(),
{
    if ports.len() > 0 {
        lemma_open_ports_subset(ports.drop_last(), open.drop_last());
        assert forall|p: u16| open_subseq(ports, open).contains(p) implies ports.contains(p) by {
            let rest = open_subseq(ports.drop_last(), open.drop_last());
            let j = choose|j: int|
                0 <= j < open_subseq(ports, open).len() && open_subseq(ports, open)[j] == p;
            if j < rest.len() {
                assert(rest.contains(p));
                assert(ports.drop_last().contains(p));
                let k = choose|k: int|
                    0 <= k < ports.drop_last().len() && ports.drop_last()[k] == p;
                assert(ports[k] == p);
            } else {
                assert(open_subseq(ports, open)[j] == ports.last());
                assert(ports[ports.len() - 1] == p);
            }
        }
    }
}

} // verus!
