//! What single calls promise, told of the calls themselves.

use crate::batch::{HotFileWriter, Opening};
use crate::config::{parse_size, SizeError};
use crate::db::RecordSummary;
use crate::export::{synthesize, BpfFilter};
use crate::id::{decode, encode};
use crate::laws::exports::{bit, field, law_flags_are_tested_by_bits, law_frame_reads_back_as_the_record};
use crate::laws::formats::law_size_is_number_times_unit;
use crate::laws::protocols::{
    dns_labels, dotted, hello, hello_body, hello_ok, law_content_wins_over_port, law_dns_name_is_read_back,
    law_request_line_ends_at_the_break, law_server_name_is_found, server_name,
};
use crate::laws::records::{
    address, describes, law_digest_describes_the_record, law_record_query_is_the_window, within,
};
use crate::ledger::{advance_watermark, OpenFileRec, WatermarkBack};
use crate::meta::{detect_protocol, dns_qname, extract_key, http_request_line, tls_sni, ExtractedKey, ProtocolKind};
use crate::plane::LivePlane;
use crate::query::{epochs_ok, stream_records, Epoch, RecordFilter, RecordRow};
use crate::reassembly::Budgets;
use crate::table::Key2;
use crate::text::dec;
use crate::util::{ip4_from_string, ip4_to_string};
use crate::wal::{summarize, IndexedRecord, WalRecord};
use vstd::prelude::*;

verus! {

/// A watermark moves forward to where it is asked to, or is refused and says from where to where.
pub proof fn law_watermark_only_moves_forward(current: u64, asked: u64, r: Result<u64, WatermarkBack>)
    requires
        call_ensures(advance_watermark, (current, asked), r),
    ensures
        r is Ok <==> asked >= current,
        r matches Ok(n) ==> n == asked,
        r matches Err(e) ==> e.current == current && e.asked == asked,
{
}

/// Limits are taken as configured; a segment limit of zero stands for eight megabytes.
pub proof fn law_limits_are_taken_as_configured(segment: u64, conn: u64, all: u64, window: u64, threshold: u32, b: Budgets)
    requires
        call_ensures(Budgets::from_config, (segment, conn, all, window, threshold), b),
    ensures
        segment > 0 ==> b.l2_segment_cap == segment,
        segment == 0 ==> b.l2_segment_cap == 8 * 1024 * 1024,
        b.l25_conn_cap == conn,
        b.l3_global_cap == all,
        b.evict_window_secs == window,
        b.evict_threshold == threshold,
{
}

/// Packing a place and unpacking it again gives the file and the offset, and locators sort by file, then by
/// offset.
pub proof fn law_places_pack_and_unpack(file: u32, offset: u32, file2: u32, offset2: u32, idx: u64, idx2: u64, back: (u32, u32))
    requires
        call_ensures(encode, (file, offset), idx),
        call_ensures(encode, (file2, offset2), idx2),
        call_ensures(decode, (idx,), back),
    ensures
        back == (file, offset),
        idx < idx2 <==> file < file2 || file == file2 && offset < offset2,
{
}

/// The digest that is made of a record describes it.
pub proof fn law_made_digest_describes(rec: WalRecord, s: RecordSummary)
    requires
        call_ensures(summarize, (&rec,), s),
    ensures
        describes(s, rec),
{
    law_digest_describes_the_record(rec);
}

/// A test of a record's digest passes if and only if every address, port and protocol that the filter names
/// is the record's own at that end.
pub proof fn law_filter_goes_by_the_record(f: BpfFilter, rec: WalRecord, s: RecordSummary, pass: bool)
    requires
        call_ensures(summarize, (&rec,), s),
        call_ensures(BpfFilter::matches_summary, (&f, &s), pass),
        rec.proto < 256,
    ensures
        pass <==> {
            &&& f.src_ip matches Some(a) ==> address(rec.src_ip@) == a
            &&& f.dst_ip matches Some(a) ==> address(rec.dst_ip@) == a
            &&& f.sport matches Some(p) ==> rec.src_port == p
            &&& f.dport matches Some(p) ==> rec.dst_port == p
            &&& f.proto matches Some(p) ==> rec.proto == p
        },
{
    law_digest_describes_the_record(rec);
}

/// A test of a record's flags goes by single bits.
pub proof fn law_flag_filter_goes_by_the_record(f: BpfFilter, rec: WalRecord, pass: bool)
    requires
        call_ensures(BpfFilter::matches_record, (&f, &rec), pass),
    ensures
        pass <==> {
            &&& f.flags_any matches Some(any) ==> exists|k: u8| k < 8 && #[trigger] bit(any, k) && bit(rec.tcp_flags, k)
            &&& f.flags_all matches Some(all) ==> forall|k: u8| k < 8 && #[trigger] bit(all, k) ==> bit(rec.tcp_flags, k)
        },
{
    law_flags_are_tested_by_bits(f, rec.tcp_flags);
}

/// A record needs the next file if and only if it would end beyond the size of a file.
pub proof fn law_rotation_keeps_the_size(w: HotFileWriter, rec_len: u64, next: bool)
    requires
        call_ensures(HotFileWriter::needs_rotation, (&w, rec_len), next),
    ensures
        next <==> w.offset + rec_len > w.segment_size,
{
}

/// After a restart the writer goes on in the file that was left open, at its watermark; without one a new
/// file is made.
pub proof fn law_recovery_goes_on_at_the_watermark(found: Option<&OpenFileRec>, dev: i64, seq: u32, size: u64, o: Opening)
    requires
        size <= u32::MAX,
        call_ensures(HotFileWriter::open_or_recover, (found, dev, seq, size), o),
    ensures
        found is None <==> o is Create,
        found matches Some(f) ==> (o matches Opening::Reuse(w) && w.offset == f.watermark && w.file_id == f.file_id as u32 && w.dev_id == dev
            && w.segment_size == size && (f.segment_seq matches Some(s) ==> w.segment_seq == s as u32) && (f.segment_seq is None
            ==> w.segment_seq == seq)),
{
}

/// A record takes a header of 64 bytes and its stored payload, and the watermark of its file ends behind it.
pub proof fn law_record_takes_header_and_payload(r: IndexedRecord, n: u64)
    requires
        call_ensures(IndexedRecord::rec_len, (&r,), n),
    ensures
        n == 64 + r.rec.payload@.len(),
        crate::batch::rec_end(r) == r.offset + n,
{
}

/// Extracting from a client hello gives its server name, wherever the extension stands.
#[verifier::rlimit(60)]
pub proof fn law_call_reads_the_server_name(
    payload: &[u8],
    front: Seq<u8>,
    head: Seq<u8>,
    session: Seq<u8>,
    ciphers: Seq<u8>,
    methods: Seq<u8>,
    es: Seq<(u16, Seq<u8>)>,
    rest: Seq<u8>,
    i: int,
    name: Seq<u8>,
    r: Option<Vec<u8>>,
    k: ExtractedKey,
)
    requires
        hello_ok(front, head, session, ciphers, methods, es),
        0 <= i < es.len(),
        forall|j: int| 0 <= j < i ==> (#[trigger] es[j]).0 != 0,
        es[i] == (0u16, server_name(name)),
        name.len() > 0,
        payload@ == hello(front, hello_body(head, session, ciphers, methods, es), rest),
        call_ensures(tls_sni, (payload,), r),
        call_ensures(extract_key, (payload, ProtocolKind::Tls), k),
    ensures
        r matches Some(v) && v@ == name,
        k.key@ == name,
        !k.pseudo,
{
    law_server_name_is_found(front, head, session, ciphers, methods, es, rest, i, name);
}

/// Extracting from a DNS message gives the name asked for.
pub proof fn law_call_reads_the_dns_name(payload: &[u8], header: Seq<u8>, ls: Seq<Seq<u8>>, rest: Seq<u8>, r: Option<Vec<u8>>, k: ExtractedKey)
    requires
        header.len() == 12,
        128 <= header[2] || header[2] % 2 == 1,
        (header[2] % 128) / 8 == 0,
        1 <= header[4] * 256 + header[5] <= 16,
        header[10] * 256 + header[11] <= 16,
        ls.len() > 0,
        forall|j: int| 0 <= j < ls.len() ==> 1 <= (#[trigger] ls[j]).len() <= 63,
        dotted(Seq::empty(), ls).len() <= 255,
        payload@ == header + dns_labels(ls) + seq![0u8] + rest,
        call_ensures(dns_qname, (payload,), r),
        call_ensures(extract_key, (payload, ProtocolKind::Dns), k),
    ensures
        r matches Some(v) && v@ == dotted(Seq::empty(), ls),
        k.key@ == dotted(Seq::empty(), ls),
        !k.pseudo,
{
    law_dns_name_is_read_back(header, ls, rest);
}

/// Extracting from an HTTP request gives its first line.
pub proof fn law_call_reads_the_request_line(payload: &[u8], line: Seq<u8>, rest: Seq<u8>, r: Option<Vec<u8>>, k: ExtractedKey)
    requires
        0 < line.len() <= 256,
        forall|j: int| 0 <= j < line.len() ==> #[trigger] line[j] != 10,
        payload@ == line + seq![13u8, 10u8] + rest,
        call_ensures(http_request_line, (payload,), r),
        call_ensures(extract_key, (payload, ProtocolKind::Http), k),
    ensures
        r matches Some(v) && v@ == line,
        k.key@ == line,
        !k.pseudo,
{
    law_request_line_ends_at_the_break(line, rest);
}

/// Detecting a protocol goes by the content first; a port helps only where the content says nothing.
pub proof fn law_call_detects_by_content(payload: &[u8], port: u16, high: bool, a: ProtocolKind, b: ProtocolKind)
    requires
        call_ensures(detect_protocol, (payload, 9, false), a),
        call_ensures(detect_protocol, (payload, port, high), b),
    ensures
        a != ProtocolKind::Unknown ==> b == a,
        a == ProtocolKind::Unknown && (port == 443 || port == 8443) ==> b == ProtocolKind::Tls,
        a == ProtocolKind::Unknown && port == 53 ==> b == ProtocolKind::Dns,
        a == ProtocolKind::Unknown && (port == 80 || port == 8080) ==> b == ProtocolKind::Http,
        payload@.len() >= 5 && payload@[0] == 0x16 && payload@[1] == 3 ==> b == ProtocolKind::Tls,
{
    law_content_wins_over_port(payload@, port, port, high);
}

/// The frame that is made of a record carries its two ends, in this order, and its payload.
#[verifier::rlimit(60)]
pub proof fn law_made_frame_is_the_record(rec: WalRecord, out: Vec<u8>)
    requires
        rec.proto < 256,
        40 + rec.payload@.len() < 0x1_0000,
        rec.payload@.len() <= rec.orig_payload_len < 0x8000_0000,
        call_ensures(synthesize, (&rec,), out),
    ensures
        out@.subrange(26, 30) == rec.src_ip@,
        out@.subrange(30, 34) == rec.dst_ip@,
        field(out@, 34, 36) == rec.src_port,
        field(out@, 36, 38) == rec.dst_port,
        out@[23] == rec.proto,
        rec.proto == 6 ==> field(out@, 38, 42) == rec.tcp_seq && field(out@, 42, 46) == rec.tcp_ack && out@[47] == rec.tcp_flags && out@.subrange(
            54,
            out@.len() as int,
        ) == rec.payload@,
{
    law_frame_reads_back_as_the_record(rec);
}

/// Reading a size in megabytes gives that many times 1024 times 1024 bytes.
pub proof fn law_call_reads_sizes(s: &str, n: nat, r: Result<u64, SizeError>)
    requires
        n <= 0xfff_ffff_ffff,
        s@ == dec(n) + seq!['M', 'B'],
        call_ensures(parse_size, (s,), r),
    ensures
        r matches Ok(b) && b == n * 1024 * 1024,
{
    assert(n * 1024 * 1024 <= u64::MAX);
    law_size_is_number_times_unit(n);
}

/// An address that is written out reads back.
pub proof fn law_call_reads_addresses_back(ip: u32, s: String, t: &str, r: Option<u32>)
    requires
        call_ensures(ip4_to_string, (ip,), s),
        t@ == s@,
        call_ensures(ip4_from_string, (t,), r),
    ensures
        r == Some(ip),
{
    crate::util::law_address_round_trip(ip);
}

/// A query for the records of a window returns a row if and only if an epoch holds it and its time lies in
/// the window.
#[verifier::rlimit(60)]
pub proof fn law_call_returns_the_window(live: &LivePlane, epochs: &Vec<Epoch>, current: u32, f: &RecordFilter, rows: Vec<RecordRow>, row: RecordRow)
    requires
        epochs_ok(epochs@),
        epochs@.len() <= usize::MAX,
        call_ensures(stream_records, (live, epochs, current, f), rows),
    ensures
        rows@.contains(row) <==> within(row.ts_ns, f.start_ts, f.end_ts) && exists|e: int|
            0 <= e < epochs@.len() && (#[trigger] epochs@[e]).plane@.record_ts.contains_key(Key2 { a: row.ts_ns, b: row.packet_idx })
                && epochs@[e].plane@.record_ts[Key2 { a: row.ts_ns, b: row.packet_idx }] == row.summary,
{
    law_record_query_is_the_window(epochs@, current, f.start_ts, f.end_ts, row);
}

} // verus!
