//! What an export lets through, and what its frames say, told from the records.

use crate::codec::{be, from_be, lemma_be_len, lemma_be_round_trip, lemma_pow256_values};
use crate::export::{flag_named, flags_named, frame_of, wire_len, BpfFilter};
use crate::laws::records::{address, law_digest_describes_the_record};
use crate::wal::{summary_of, WalRecord};
use vstd::prelude::*;

verus! {

/// A filter that tests nothing.
pub open spec fn open_filter() -> BpfFilter {
    BpfFilter { proto: None, src_ip: None, dst_ip: None, sport: None, dport: None, flags_any: None, flags_all: None }
}

/// Each field of a filter tests its own end of a record and nothing else: a filter with one field admits a
/// record if and only if the record has that very value there, whatever else it holds.
pub proof fn law_each_field_tests_its_own(rec: WalRecord, ip: u32, port: u16, proto: u8)
    ensures
        ({
            let s = summary_of(rec);
            let none = open_filter();
            &&& none.admits_summary(s)
            &&& (BpfFilter { src_ip: Some(ip), ..none }).admits_summary(s) <==> address(rec.src_ip@) == ip
            &&& (BpfFilter { dst_ip: Some(ip), ..none }).admits_summary(s) <==> address(rec.dst_ip@) == ip
            &&& (BpfFilter { sport: Some(port), ..none }).admits_summary(s) <==> rec.src_port == port
            &&& (BpfFilter { dport: Some(port), ..none }).admits_summary(s) <==> rec.dst_port == port
            &&& rec.proto < 256 ==> ((BpfFilter { proto: Some(proto), ..none }).admits_summary(s) <==> rec.proto == proto)
        }),
{
    law_digest_describes_the_record(rec);
}

/// A filter admits a record if and only if each of its fields alone admits it.
pub proof fn law_fields_are_tested_together(f: BpfFilter, rec: WalRecord)
    ensures
        ({
            let s = summary_of(rec);
            let none = open_filter();
            f.admits_summary(s) <==> {
                &&& (BpfFilter { proto: f.proto, ..none }).admits_summary(s)
                &&& (BpfFilter { src_ip: f.src_ip, ..none }).admits_summary(s)
                &&& (BpfFilter { dst_ip: f.dst_ip, ..none }).admits_summary(s)
                &&& (BpfFilter { sport: f.sport, ..none }).admits_summary(s)
                &&& (BpfFilter { dport: f.dport, ..none }).admits_summary(s)
            }
        }),
{
}

/// A bit of a byte.
pub open spec fn bit(x: u8, k: u8) -> bool {
    (x >> k) & 1 == 1
}

/// A flag test goes by single bits: one of the bits asked for, or all of them, whatever the other bits are.
pub proof fn law_flags_are_tested_by_bits(f: BpfFilter, flags: u8)
    ensures
        f.admits_flags(flags) <==> {
            &&& f.flags_any matches Some(any) ==> exists|k: u8| k < 8 && #[trigger] bit(any, k) && bit(flags, k)
            &&& f.flags_all matches Some(all) ==> forall|k: u8| k < 8 && #[trigger] bit(all, k) ==> bit(flags, k)
        },
{
    if let Some(any) = f.flags_any {
        lemma_common_bit(any, flags);
    }
    if let Some(all) = f.flags_all {
        lemma_all_bits(all, flags);
    }
}

#[verifier::rlimit(60)]
proof fn lemma_common_bit(a: u8, b: u8)
    ensures
        b & a != 0 <==> exists|k: u8| k < 8 && #[trigger] bit(a, k) && bit(b, k),
{
    if b & a != 0 {
        assert((bit(a, 0) && bit(b, 0)) || (bit(a, 1) && bit(b, 1)) || (bit(a, 2) && bit(b, 2)) || (bit(a, 3) && bit(b, 3)) || (bit(a, 4)
            && bit(b, 4)) || (bit(a, 5) && bit(b, 5)) || (bit(a, 6) && bit(b, 6)) || (bit(a, 7) && bit(b, 7))) by {
            assert(b & a != 0 ==> (((a >> 0u8) & 1 == 1 && (b >> 0u8) & 1 == 1) || ((a >> 1u8) & 1 == 1 && (b >> 1u8) & 1 == 1) || ((a >> 2u8) & 1
                == 1 && (b >> 2u8) & 1 == 1) || ((a >> 3u8) & 1 == 1 && (b >> 3u8) & 1 == 1) || ((a >> 4u8) & 1 == 1 && (b >> 4u8) & 1 == 1) || ((
            a >> 5u8) & 1 == 1 && (b >> 5u8) & 1 == 1) || ((a >> 6u8) & 1 == 1 && (b >> 6u8) & 1 == 1) || ((a >> 7u8) & 1 == 1 && (b >> 7u8) & 1
                == 1))) by (bit_vector);
        }
    }
    if exists|k: u8| k < 8 && #[trigger] bit(a, k) && bit(b, k) {
        let k = choose|k: u8| k < 8 && #[trigger] bit(a, k) && bit(b, k);
        assert(k < 8 && (a >> k) & 1 == 1 && (b >> k) & 1 == 1 ==> b & a != 0) by (bit_vector);
    }
}

#[verifier::rlimit(60)]
proof fn lemma_all_bits(a: u8, b: u8)
    ensures
        b & a == a <==> forall|k: u8| k < 8 && #[trigger] bit(a, k) ==> bit(b, k),
{
    if b & a == a {
        assert forall|k: u8| k < 8 && #[trigger] bit(a, k) implies bit(b, k) by {
            assert(k < 8 && b & a == a && (a >> k) & 1 == 1 ==> (b >> k) & 1 == 1) by (bit_vector);
        }
    } else {
        let c = a & !b;
        assert(b & a != a ==> c & c != 0) by (bit_vector)
            requires
                c == a & !b,
        ;
        lemma_common_bit(c, c);
        let k = choose|k: u8| k < 8 && #[trigger] bit(c, k) && bit(c, k);
        assert(k < 8 && c == a & !b && (c >> k) & 1 == 1 ==> (a >> k) & 1 == 1 && (b >> k) & 1 != 1) by (bit_vector);
        assert(bit(a, k));
    }
}

/// The names of the TCP flags in the order of their bits, from the lowest.
pub open spec fn flag_names() -> Seq<Seq<char>> {
    seq!["fin"@, "syn"@, "rst"@, "psh"@, "ack"@, "urg"@]
}

/// Whether a list of names holds a name.
pub open spec fn lists(names: Seq<&str>, name: Seq<char>) -> bool {
    exists|i: int| 0 <= i < names.len() && (#[trigger] names[i])@ == name
}

/// A list of flag names is understood if and only if every name is one of the six, and then each bit is set
/// if and only if its name is in the list.
#[verifier::rlimit(60)]
pub proof fn law_flag_names_set_their_bits(names: Seq<&str>)
    ensures
        flags_named(names) is Some <==> forall|i: int| 0 <= i < names.len() ==> flag_names().contains((#[trigger] names[i])@),
        flags_named(names) matches Some(bits) ==> bits < 64 && forall|k: u8|
            k < 6 ==> (#[trigger] bit(bits, k) <==> lists(names, flag_names()[k as int])),
    decreases names.len(),
{
    lemma_flag_names();
    if names.len() == 0 {
        assert forall|k: u8| k < 6 implies !#[trigger] bit(0, k) by {
            assert(k < 6 ==> (0u8 >> k) & 1 != 1) by (bit_vector);
        }
    } else {
        let head = names.drop_last();
        let last = names.last()@;
        law_flag_names_set_their_bits(head);
        lemma_one_flag(last);
        let n = names.len() - 1;
        assert forall|i: int| 0 <= i < n implies head[i] == names[i] by {}
        if flags_named(names) is Some {
            assert forall|i: int| 0 <= i < names.len() implies flag_names().contains((#[trigger] names[i])@) by {
                if i < n {
                    assert(flag_names().contains(head[i]@));
                }
            }
        }
        if forall|i: int| 0 <= i < names.len() ==> flag_names().contains((#[trigger] names[i])@) {
            assert forall|i: int| 0 <= i < head.len() implies flag_names().contains((#[trigger] head[i])@) by {
                assert(flag_names().contains(names[i]@));
            }
            assert(flag_names().contains(names[n]@));
        }
        if flags_named(names) is Some {
            let (a, b) = (flags_named(head)->0, flag_named(last)->0);
            assert(a < 64 && b < 64 ==> a | b < 64) by (bit_vector);
            assert forall|k: u8| k < 6 implies (#[trigger] bit(a | b, k) <==> lists(names, flag_names()[k as int])) by {
                assert(((a | b) >> k) & 1 == 1 <==> (a >> k) & 1 == 1 || (b >> k) & 1 == 1) by (bit_vector);
                let name = flag_names()[k as int];
                assert(bit(a, k) <==> lists(head, name));
                assert(bit(b, k) <==> last == name);
                if lists(head, name) {
                    let i = choose|i: int| 0 <= i < head.len() && (#[trigger] head[i])@ == name;
                    assert(names[i]@ == name);
                }
                if lists(names, name) && last != name {
                    let i = choose|i: int| 0 <= i < names.len() && (#[trigger] names[i])@ == name;
                    assert(head[i]@ == name);
                }
                if last == name {
                    assert(names[n]@ == name);
                }
            }
        }
    }
}

proof fn lemma_flag_names()
    ensures
        forall|i: int, j: int| 0 <= i < j < 6 ==> flag_names()[i] != flag_names()[j],
{
    reveal_strlit("fin");
    reveal_strlit("syn");
    reveal_strlit("rst");
    reveal_strlit("psh");
    reveal_strlit("ack");
    reveal_strlit("urg");
    assert("fin"@[0] == 'f' && "syn"@[0] == 's' && "rst"@[0] == 'r' && "psh"@[0] == 'p' && "ack"@[0] == 'a' && "urg"@[0] == 'u');
}

#[verifier::rlimit(60)]
proof fn lemma_one_flag(name: Seq<char>)
    ensures
        flag_named(name) is Some <==> flag_names().contains(name),
        flag_named(name) matches Some(b) ==> b < 64 && forall|k: u8| k < 6 ==> (#[trigger] bit(b, k) <==> name == flag_names()[k as int]),
{
    lemma_flag_names();
    let all = flag_names();
    assert(all[0] == "fin"@ && all[1] == "syn"@ && all[2] == "rst"@ && all[3] == "psh"@ && all[4] == "ack"@ && all[5] == "urg"@);
    if flag_named(name) is Some {
        let b = flag_named(name)->0;
        assert forall|k: u8| k < 6 implies (#[trigger] bit(b, k) <==> name == all[k as int]) by {
            assert((1u8 >> k) & 1 == 1 <==> k == 0) by (bit_vector)
                requires
                    k < 6,
            ;
            assert((2u8 >> k) & 1 == 1 <==> k == 1) by (bit_vector)
                requires
                    k < 6,
            ;
            assert((4u8 >> k) & 1 == 1 <==> k == 2) by (bit_vector)
                requires
                    k < 6,
            ;
            assert((8u8 >> k) & 1 == 1 <==> k == 3) by (bit_vector)
                requires
                    k < 6,
            ;
            assert((16u8 >> k) & 1 == 1 <==> k == 4) by (bit_vector)
                requires
                    k < 6,
            ;
            assert((32u8 >> k) & 1 == 1 <==> k == 5) by (bit_vector)
                requires
                    k < 6,
            ;
        }
    }
}

/// The number in bytes `i` to `j` of a frame.
pub open spec fn field(f: Seq<u8>, i: int, j: int) -> nat {
    from_be(f.subrange(i, j))
}

/// Reading a frame back, header by header, gives the record: an IPv4 packet of the length that 16 bits hold,
/// with the protocol, the two addresses and the two ports, and for TCP the sequence number, the
/// acknowledgement, the flags and the window, for UDP the length; the payload follows the headers. The length
/// on the wire exceeds the frame by what the capture cut.
#[verifier::rlimit(60)]
pub proof fn law_frame_reads_back_as_the_record(rec: WalRecord)
    requires
        rec.proto < 256,
        40 + rec.payload@.len() < 0x1_0000,
        rec.payload@.len() <= rec.orig_payload_len < 0x8000_0000,
    ensures
        ({
            let f = frame_of(rec);
            let l4: int = if rec.proto == 6 {
                20
            } else {
                8
            };
            &&& f.len() == 34 + l4 + rec.payload@.len()
            &&& field(f, 12, 14) == 0x800
            &&& f[14] == 0x45
            &&& field(f, 16, 18) == 20 + l4 + rec.payload@.len()
            &&& f[23] == rec.proto
            &&& f.subrange(26, 30) == rec.src_ip@
            &&& f.subrange(30, 34) == rec.dst_ip@
            &&& field(f, 34, 36) == rec.src_port
            &&& field(f, 36, 38) == rec.dst_port
            &&& rec.proto == 6 ==> {
                &&& field(f, 38, 42) == rec.tcp_seq
                &&& field(f, 42, 46) == rec.tcp_ack
                &&& f[46] == 0x50
                &&& f[47] == rec.tcp_flags
                &&& field(f, 48, 50) == rec.window_size
            }
            &&& rec.proto != 6 ==> field(f, 38, 40) == 8 + rec.payload@.len()
            &&& f.subrange(34 + l4, f.len() as int) == rec.payload@
            &&& wire_len(rec) - f.len() == rec.orig_payload_len - rec.payload@.len()
        }),
{
    let f = frame_of(rec);
    let n = rec.payload@.len();
    let l4: int = if rec.proto == 6 {
        20
    } else {
        8
    };
    lemma_pow256_values();
    lemma_number(rec.src_port as nat, 2);
    lemma_number(rec.dst_port as nat, 2);
    lemma_number(rec.tcp_seq as nat, 4);
    lemma_number(rec.tcp_ack as nat, 4);
    lemma_number(rec.window_size as nat, 2);
    lemma_number(8 + n, 2);
    lemma_number((20 + l4 + n) as nat, 2);
    lemma_number(rec.proto as nat, 1);
    assert(f.subrange(12, 14) =~= seq![8u8, 0u8]);
    assert(from_be(seq![8u8, 0u8]) == 0x800) by {
        let s = seq![8u8, 0u8];
        assert(s.drop_last() =~= seq![8u8]);
        assert(seq![8u8].drop_last() =~= Seq::empty());
        reveal_with_fuel(from_be, 3);
    }
    assert(f.subrange(16, 18) =~= be((20 + l4 + n) as nat, 2));
    let pr = be(rec.proto as nat, 1);
    assert(f[23] == pr[0]);
    assert(pr[0] == rec.proto) by {
        assert(pr.drop_last() =~= Seq::empty());
        assert(pr.last() == pr[0]);
        reveal_with_fuel(from_be, 2);
    }
    assert(f.subrange(26, 30) =~= rec.src_ip@);
    assert(f.subrange(30, 34) =~= rec.dst_ip@);
    assert(f.subrange(34, 36) =~= be(rec.src_port as nat, 2));
    assert(f.subrange(36, 38) =~= be(rec.dst_port as nat, 2));
    if rec.proto == 6 {
        assert(f.subrange(38, 42) =~= be(rec.tcp_seq as nat, 4));
        assert(f.subrange(42, 46) =~= be(rec.tcp_ack as nat, 4));
        assert(f.subrange(48, 50) =~= be(rec.window_size as nat, 2));
    } else {
        assert(f.subrange(38, 40) =~= be(8 + n, 2));
    }
    assert(f.subrange(34 + l4, f.len() as int) =~= rec.payload@);
}

proof fn lemma_number(x: nat, n: nat)
    requires
        x < crate::codec::pow256(n),
    ensures
        be(x, n).len() == n,
        from_be(be(x, n)) == x,
{
    lemma_be_len(x, n);
    lemma_be_round_trip(x, n);
}

} // verus!
