use vstd::prelude::*;

use crate::ClientHello;
use crate::SpecClientHello;
use crate::error::Error;
use crate::error::SpecError;
use crate::extension::Extension;
use crate::extension::SpecExtension;
use crate::extension::grease_filtered;
use crate::extension::grease_in_u16s;
use crate::extension::lemma_extension_grease_scan;
use crate::extension::lemma_grease_filtered_clean;
use crate::extension::lemma_spec_extension_clean;
use crate::extension::spec_extension_grease_scan;
use crate::extension::parse_extension;
use crate::extension::seq_no_grease;
use crate::extension::spec_extension;
use crate::extension::spec_extension_clean;
use crate::grease::is_grease;
use crate::reader::Reader;
use crate::reader::u16_be;
use crate::reader::u24_be;

verus! {

broadcast use vstd::seq::group_seq_axioms, vstd::seq_lib::group_seq_properties, vstd::seq_lib::group_seq_lib_default;

/// Decoding of the cipher-suites block found at offset `pos` of a body: a
/// two-byte list length, then the bounded list, whose non-GREASE 16-bit
/// entries are kept. Yields the kept entries, whether a GREASE entry was
/// seen, and the offset just past the block.
pub open spec fn spec_cipher_block(d: Seq<u8>, pos: int) -> Result<(Seq<u16>, bool, int), SpecError> {
    if d.len() - pos < 2 {
        Err(SpecError::Truncated { field: "cipher suites length"@ })
    } else {
        let list_len = u16_be(d[pos], d[pos + 1]) as int;
        if d.len() - (pos + 2) < list_len {
            Err(SpecError::Truncated { field: "cipher suites data"@ })
        } else {
            let sub = d.subrange(pos + 2, pos + 2 + list_len);
            Ok((grease_filtered(sub), grease_in_u16s(sub), pos + 2 + list_len))
        }
    }
}

/// Decoding of a sequence of type/length/value extension entries: each
/// entry is consumed while at least four bytes remain; fewer than four
/// trailing bytes are ignored. Yields the decoded extensions in wire order
/// and whether any GREASE value was seen among them.
pub open spec fn spec_extension_entries(d: Seq<u8>) -> Result<(Seq<SpecExtension>, bool), SpecError>
    decreases d.len(),
{
    if d.len() < 4 {
        Ok((seq![], false))
    } else {
        let type_id = u16_be(d[0], d[1]);
        let ext_len = u16_be(d[2], d[3]) as int;
        if d.len() - 4 < ext_len {
            Err(SpecError::Truncated { field: "extension body"@ })
        } else {
            match spec_extension(type_id, d.subrange(4, 4 + ext_len)) {
                Err(e) => Err(e),
                Ok((ext, g1)) => match spec_extension_entries(d.skip(4 + ext_len)) {
                    Err(e) => Err(e),
                    Ok((rest, g2)) => Ok((seq![ext] + rest, g1 || g2)),
                },
            }
        }
    }
}

/// Decoding of the extensions block found at offset `pos` of a body: a
/// two-byte list length, then the bounded entry sequence. Yields the
/// extensions, whether a GREASE value was seen, and the offset just past
/// the block.
pub open spec fn spec_extensions_block(d: Seq<u8>, pos: int) -> Result<
    (Seq<SpecExtension>, bool, int),
    SpecError,
> {
    if d.len() - pos < 2 {
        Err(SpecError::Truncated { field: "extensions length"@ })
    } else {
        let list_len = u16_be(d[pos], d[pos + 1]) as int;
        if d.len() - (pos + 2) < list_len {
            Err(SpecError::Truncated { field: "extensions data"@ })
        } else {
            match spec_extension_entries(d.subrange(pos + 2, pos + 2 + list_len)) {
                Err(e) => Err(e),
                Ok((exts, g)) => Ok((exts, g, pos + 2 + list_len)),
            }
        }
    }
}

/// Decoding of a ClientHello body: legacy version, 32-byte random,
/// length-prefixed session ID, cipher-suites block, length-prefixed
/// compression methods, and — only if at least two bytes remain — an
/// extensions block. `has_grease` records whether any GREASE value was
/// seen in the cipher suites or the extensions.
pub open spec fn spec_body(d: Seq<u8>) -> Result<SpecClientHello, SpecError> {
    if d.len() < 2 {
        Err(SpecError::Truncated { field: "legacy version"@ })
    } else if d.len() - 2 < 32 {
        Err(SpecError::Truncated { field: "client random"@ })
    } else if d.len() - 34 < 1 {
        Err(SpecError::Truncated { field: "session ID length"@ })
    } else {
        let sid_len = d[34] as int;
        if d.len() - 35 < sid_len {
            Err(SpecError::Truncated { field: "session ID"@ })
        } else {
            match spec_cipher_block(d, 35 + sid_len) {
                Err(e) => Err(e),
                Ok((cipher_suites, g_cs, p)) => if d.len() - p < 1 {
                    Err(SpecError::Truncated { field: "compression methods length"@ })
                } else {
                    let comp_len = d[p] as int;
                    if d.len() - (p + 1) < comp_len {
                        Err(SpecError::Truncated { field: "compression methods"@ })
                    } else {
                        let q = p + 1 + comp_len;
                        if d.len() - q < 2 {
                            Ok(
                                SpecClientHello {
                                    legacy_version: u16_be(d[0], d[1]),
                                    random: d.subrange(2, 34),
                                    session_id: d.subrange(35, 35 + sid_len),
                                    cipher_suites: cipher_suites,
                                    compression_methods: d.subrange(p + 1, p + 1 + comp_len),
                                    extensions: seq![],
                                    has_grease: g_cs,
                                },
                            )
                        } else {
                            match spec_extensions_block(d, q) {
                                Err(e) => Err(e),
                                Ok((extensions, g_ext, _end)) => Ok(
                                    SpecClientHello {
                                        legacy_version: u16_be(d[0], d[1]),
                                        random: d.subrange(2, 34),
                                        session_id: d.subrange(35, 35 + sid_len),
                                        cipher_suites: cipher_suites,
                                        compression_methods: d.subrange(p + 1, p + 1 + comp_len),
                                        extensions: extensions,
                                        has_grease: g_cs || g_ext,
                                    },
                                ),
                            }
                        }
                    }
                },
            }
        }
    }
}

/// Decoding of a raw handshake message: the ClientHello type byte `0x01`,
/// a three-byte body length, then the bounded body; trailing bytes after
/// the bounded body are ignored.
pub open spec fn spec_parse(d: Seq<u8>) -> Result<SpecClientHello, SpecError> {
    if d.len() == 0 {
        Err(SpecError::BufferTooShort { need: 1, have: 0 })
    } else if d[0] != 0x01 {
        Err(SpecError::NotClientHello(d[0]))
    } else if d.len() - 1 < 3 {
        Err(SpecError::Truncated { field: "handshake length"@ })
    } else {
        let body_len = u24_be(d[1], d[2], d[3]) as int;
        if d.len() - 4 < body_len {
            Err(SpecError::Truncated { field: "handshake body"@ })
        } else {
            spec_body(d.subrange(4, 4 + body_len))
        }
    }
}

/// Decoding of a TLS record: the Handshake content type byte `0x16`, a
/// two-byte protocol version that is read and ignored, a two-byte payload
/// length, then the bounded payload handed to [`spec_parse`].
pub open spec fn spec_parse_record(d: Seq<u8>) -> Result<SpecClientHello, SpecError> {
    if d.len() < 5 {
        Err(SpecError::BufferTooShort { need: 5, have: d.len() })
    } else if d[0] != 0x16 {
        Err(SpecError::NotHandshakeRecord(d[0]))
    } else {
        let record_len = u16_be(d[3], d[4]) as int;
        if d.len() - 5 < record_len {
            Err(SpecError::Truncated { field: "record payload"@ })
        } else {
            spec_parse(d.subrange(5, 5 + record_len))
        }
    }
}

/// Every extension of a successfully decoded entry sequence is clean: its
/// GREASE-filtered lists hold no GREASE value.
pub proof fn lemma_extension_entries_clean(d: Seq<u8>)
    ensures
        spec_extension_entries(d) matches Ok((exts, g)) ==> forall|i: int|
            0 <= i < exts.len() ==> spec_extension_clean(#[trigger] exts[i]),
    decreases d.len(),
{
    if d.len() < 4 {
    } else {
        let type_id = u16_be(d[0], d[1]);
        let ext_len = u16_be(d[2], d[3]) as int;
        if d.len() - 4 >= ext_len {
            lemma_spec_extension_clean(type_id, d.subrange(4, 4 + ext_len));
            lemma_extension_entries_clean(d.skip(4 + ext_len));
            match spec_extension(type_id, d.subrange(4, 4 + ext_len)) {
                Ok((ext, _g1)) => match spec_extension_entries(d.skip(4 + ext_len)) {
                    Ok((rest, _g2)) => {
                        assert forall|i: int| 0 <= i < (seq![ext] + rest).len() implies
                            spec_extension_clean((seq![ext] + rest)[i]) by {
                            if i > 0 {
                                assert((seq![ext] + rest)[i] == rest[i - 1]);
                            }
                        }
                    },
                    Err(_) => {},
                },
                Err(_) => {},
            }
        }
    }
}

/// Every successfully decoded body is clean: the cipher-suite list and
/// every GREASE-filtered extension list hold no GREASE value.
pub proof fn lemma_body_clean(d: Seq<u8>)
    ensures
        spec_body(d) matches Ok(ch) ==> seq_no_grease(ch.cipher_suites) && (forall|i: int|
            0 <= i < ch.extensions.len() ==> spec_extension_clean(#[trigger] ch.extensions[i])),
{
    match spec_body(d) {
        Ok(_ch) => {
            let sid_len = d[34] as int;
            let p0 = 35 + sid_len;
            let list_len = u16_be(d[p0], d[p0 + 1]) as int;
            lemma_grease_filtered_clean(d.subrange(p0 + 2, p0 + 2 + list_len));
            match spec_cipher_block(d, p0) {
                Ok((_cs, _g, p)) => {
                    let comp_len = d[p] as int;
                    let q = p + 1 + comp_len;
                    if d.len() - q >= 2 {
                        let el = u16_be(d[q], d[q + 1]) as int;
                        lemma_extension_entries_clean(d.subrange(q + 2, q + 2 + el));
                    }
                },
                Err(_) => {},
            }
        },
        Err(_) => {},
    }
}

/// Whether a GREASE value stands anywhere in a sequence of extension
/// entries: in a type identifier or in a GREASE-filtered list body.
pub open spec fn grease_in_extension_entries(d: Seq<u8>) -> bool
    decreases d.len(),
{
    if d.len() < 4 {
        false
    } else {
        let type_id = u16_be(d[0], d[1]);
        let ext_len = u16_be(d[2], d[3]) as int;
        if d.len() - 4 < ext_len {
            false
        } else {
            spec_extension_grease_scan(type_id, d.subrange(4, 4 + ext_len))
                || grease_in_extension_entries(d.skip(4 + ext_len))
        }
    }
}

/// On entries it decodes successfully, the extension loop reports GREASE
/// exactly when [`grease_in_extension_entries`] finds one.
pub proof fn lemma_extension_entries_grease_scan(d: Seq<u8>)
    ensures
        spec_extension_entries(d) matches Ok((exts, g)) ==> g == grease_in_extension_entries(d),
    decreases d.len(),
{
    if d.len() >= 4 {
        let ext_len = u16_be(d[2], d[3]) as int;
        if d.len() - 4 >= ext_len {
            lemma_extension_grease_scan(u16_be(d[0], d[1]), d.subrange(4, 4 + ext_len));
            lemma_extension_entries_grease_scan(d.skip(4 + ext_len));
        }
    }
}

/// Whether a GREASE value stands anywhere in a ClientHello body that the
/// decoder inspects for one: among the cipher-suite entries, or in the
/// extensions block — a type identifier or a supported-versions,
/// supported-groups or key-share list.
pub open spec fn grease_in_body(d: Seq<u8>) -> bool
    recommends
        spec_body(d) is Ok,
{
    let sid_len = d[34] as int;
    let p0 = 35 + sid_len;
    let list_len = u16_be(d[p0], d[p0 + 1]) as int;
    let cs_sub = d.subrange(p0 + 2, p0 + 2 + list_len);
    let p = p0 + 2 + list_len;
    let comp_len = d[p] as int;
    let q = p + 1 + comp_len;
    grease_in_u16s(cs_sub) || (d.len() - q >= 2 && ({
        let el = u16_be(d[q], d[q + 1]) as int;
        d.len() - (q + 2) >= el && grease_in_extension_entries(d.subrange(q + 2, q + 2 + el))
    }))
}

/// `has_grease` accounting: a successfully decoded body reports GREASE
/// exactly when a GREASE value stands in the wire bytes the decoder
/// filters — the cipher suites, an extension type identifier, or a
/// supported-versions, supported-groups or key-share list.
pub proof fn lemma_has_grease_iff_wire_body(d: Seq<u8>)
    ensures
        spec_body(d) matches Ok(ch) ==> ch.has_grease == grease_in_body(d),
{
    match spec_body(d) {
        Ok(_ch) => {
            let sid_len = d[34] as int;
            let p0 = 35 + sid_len;
            match spec_cipher_block(d, p0) {
                Ok((_cs, _g, p)) => {
                    let comp_len = d[p] as int;
                    let q = p + 1 + comp_len;
                    if d.len() - q >= 2 {
                        let el = u16_be(d[q], d[q + 1]) as int;
                        lemma_extension_entries_grease_scan(d.subrange(q + 2, q + 2 + el));
                    }
                },
                Err(_) => {},
            }
        },
        Err(_) => {},
    }
}

/// For any successfully decoded handshake message, `has_grease` is true
/// exactly when a GREASE value appeared somewhere the decoder filters in
/// the message body: cipher suites, extension type identifiers, supported
/// versions, supported groups, or key-share groups.
pub proof fn lemma_has_grease_iff_wire(d: Seq<u8>, ch: SpecClientHello)
    requires
        spec_parse(d) == Ok::<SpecClientHello, SpecError>(ch),
    ensures
        ch.has_grease == grease_in_body(d.subrange(4, 4 + u24_be(d[1], d[2], d[3]))),
{
    lemma_has_grease_iff_wire_body(d.subrange(4, 4 + u24_be(d[1], d[2], d[3])));
}

/// The record entry point keeps the same `has_grease` accounting: the flag
/// is governed by the body bytes inside the record's payload, as in
/// [`lemma_has_grease_iff_wire`].
pub proof fn lemma_has_grease_iff_wire_record(d: Seq<u8>, ch: SpecClientHello)
    requires
        spec_parse_record(d) == Ok::<SpecClientHello, SpecError>(ch),
    ensures
        ({
            let inner = d.subrange(5, 5 + u16_be(d[3], d[4]));
            ch.has_grease == grease_in_body(
                inner.subrange(4, 4 + u24_be(inner[1], inner[2], inner[3])),
            )
        }),
{
    let inner = d.subrange(5, 5 + u16_be(d[3], d[4]) as int);
    lemma_has_grease_iff_wire(inner, ch);
}

/// Decoding is deterministic: equal input bytes always decode to equal
/// outcomes, whichever entry point is used.
pub proof fn lemma_decode_deterministic(d1: Seq<u8>, d2: Seq<u8>)
    requires
        d1 == d2,
    ensures
        spec_parse(d1) == spec_parse(d2),
        spec_parse_record(d1) == spec_parse_record(d2),
{
}

/// Truncating a decodable handshake message at any point strictly before
/// its end yields a BufferTooShort or Truncated error, never a different
/// decoded value.
pub proof fn lemma_truncation_errors(d: Seq<u8>, t: int)
    requires
        spec_parse(d) is Ok,
        0 <= t < 4 + u24_be(d[1], d[2], d[3]),
    ensures
        spec_parse(d.take(t)) matches Err(e) && (e is BufferTooShort || e is Truncated),
{
    let p = d.take(t);
    if t > 0 {
        assert(p[0] == d[0]);
        if t >= 4 {
            assert(p[1] == d[1]);
            assert(p[2] == d[2]);
            assert(p[3] == d[3]);
        }
    }
}

/// Truncating a decodable record at any point strictly before the end of
/// its declared payload yields a BufferTooShort or Truncated error, never
/// a different decoded value.
pub proof fn lemma_record_truncation_errors(d: Seq<u8>, t: int)
    requires
        spec_parse_record(d) is Ok,
        0 <= t < 5 + u16_be(d[3], d[4]),
    ensures
        spec_parse_record(d.take(t)) matches Err(e) && (e is BufferTooShort || e is Truncated),
{
    let p = d.take(t);
    if t >= 5 {
        assert(p[0] == d[0]);
        assert(p[3] == d[3]);
        assert(p[4] == d[4]);
    }
}

#[verifier::loop_isolation(false)]
fn parse_cipher_suites<'a>(r: &mut Reader<'a>, has_grease: &mut bool) -> (ret: Result<
    Vec<u16>,
    Error,
>)
    requires
        old(r).wf(),
    ensures
        final(r).wf(),
        final(r).data() == old(r).data(),
        (*old(has_grease) ==> *final(has_grease)),
        match ret {
            Ok(v) => spec_cipher_block(old(r).data(), old(r).pos()) matches Ok((vals, g, p)) && v@
                == vals && final(r).pos() == p && *final(has_grease) == (*old(has_grease) || g),
            Err(e) => spec_cipher_block(old(r).data(), old(r).pos()) == Err::<
                (Seq<u16>, bool, int),
                SpecError,
            >(e@) && *final(has_grease) == *old(has_grease),
        },
{
    let len = match r.read_u16("cipher suites length") {
        Ok(v) => v,
        Err(e) => { return Err(e) },
    };
    let cs_data = match r.read_bytes(len as usize, "cipher suites data") {
        Ok(v) => v,
        Err(e) => { return Err(e) },
    };
    let ghost sub: Seq<u8> = cs_data@;
    let ghost flag0: bool = *has_grease;
    let mut inner = Reader::new(cs_data);
    let mut suites: Vec<u16> = Vec::new();
    let mut left = inner.remaining();
    while left >= 2
        invariant
            inner.wf(),
            inner.data() == sub,
            left == inner.avail(),
            grease_filtered(sub) == suites@ + grease_filtered(sub.skip(inner.pos())),
            (flag0 || grease_in_u16s(sub)) == (*has_grease || grease_in_u16s(
                sub.skip(inner.pos()),
            )),
        decreases left,
    {
        let ghost p: int = inner.pos();
        let ghost vs: Seq<u16> = suites@;
        let val = match inner.read_u16("cipher suite") {
            Ok(v) => v,
            Err(_) => { return unreached() },
        };
        proof {
            assert(sub.skip(p)[0] == sub[p]);
            assert(sub.skip(p)[1] == sub[p + 1]);
            assert(sub.skip(p).skip(2) =~= sub.skip(p + 2));
        }
        if is_grease(val) {
            *has_grease = true;
        } else {
            suites.push(val);
            proof {
                assert(vs + (seq![val] + grease_filtered(sub.skip(p + 2))) =~= vs.push(val)
                    + grease_filtered(sub.skip(p + 2)));
            }
        }
        left = inner.remaining();
    }
    proof {
        assert(suites@ + Seq::<u16>::empty() =~= suites@);
    }
    Ok(suites)
}

#[verifier::loop_isolation(false)]
#[verifier::rlimit(100)]
#[verifier::spinoff_prover]
fn parse_extensions<'a>(r: &mut Reader<'a>, has_grease: &mut bool) -> (ret: Result<
    Vec<Extension<'a>>,
    Error,
>)
    requires
        old(r).wf(),
    ensures
        final(r).wf(),
        final(r).data() == old(r).data(),
        (*old(has_grease) ==> *final(has_grease)),
        match ret {
            Ok(v) => spec_extensions_block(old(r).data(), old(r).pos()) matches Ok((exts, g, p))
                && v@.map_values(|e: Extension<'a>| e@) == exts && final(r).pos() == p
                && *final(has_grease) == (*old(has_grease) || g),
            Err(e) => spec_extensions_block(old(r).data(), old(r).pos()) == Err::<
                (Seq<SpecExtension>, bool, int),
                SpecError,
            >(e@),
        },
{
    let len = match r.read_u16("extensions length") {
        Ok(v) => v,
        Err(e) => { return Err(e) },
    };
    let ext_data = match r.read_bytes(len as usize, "extensions data") {
        Ok(v) => v,
        Err(e) => { return Err(e) },
    };
    let ghost sub: Seq<u8> = ext_data@;
    let ghost flag0: bool = *has_grease;
    let mut inner = Reader::new(ext_data);
    let mut extensions: Vec<Extension<'a>> = Vec::new();
    let mut left = inner.remaining();
    proof {
        assert(sub.skip(0) =~= sub);
        match spec_extension_entries(sub) {
            Ok((exts, _g)) => {
                assert(Seq::<SpecExtension>::empty() + exts =~= exts);
            },
            Err(_) => {},
        }
    }
    while left >= 4
        invariant
            inner.wf(),
            inner.data() == sub,
            left == inner.avail(),
            (flag0 ==> *has_grease),
            match spec_extension_entries(sub.skip(inner.pos())) {
                Ok((rest, g)) => spec_extension_entries(sub) matches Ok((all, gall)) && all
                    == extensions@.map_values(|e: Extension<'a>| e@) + rest && ((flag0 || gall) == (
                *has_grease
                    || g)),
                Err(e) => spec_extension_entries(sub) == Err::<
                    (Seq<SpecExtension>, bool),
                    SpecError,
                >(e),
            },
        decreases left,
    {
        let ghost p: int = inner.pos();
        let ghost es: Seq<SpecExtension> = extensions@.map_values(|e: Extension<'a>| e@);
        proof {
            assert(sub.skip(p)[0] == sub[p]);
            assert(sub.skip(p)[1] == sub[p + 1]);
            assert(sub.skip(p)[2] == sub[p + 2]);
            assert(sub.skip(p)[3] == sub[p + 3]);
        }
        let type_id = match inner.read_u16("extension type") {
            Ok(v) => v,
            Err(_) => { return unreached() },
        };
        let ext_len = match inner.read_u16("extension length") {
            Ok(v) => v,
            Err(_) => { return unreached() },
        };
        let ext_body = match inner.read_bytes(ext_len as usize, "extension body") {
            Ok(v) => v,
            Err(e) => { return Err(e) },
        };
        proof {
            assert(sub.skip(p).subrange(4, 4 + ext_len as int) =~= sub.subrange(
                p + 4,
                p + 4 + ext_len as int,
            ));
            assert(sub.skip(p).skip(4 + ext_len as int) =~= sub.skip(p + 4 + ext_len as int));
        }
        let ext = match parse_extension(type_id, ext_body, has_grease) {
            Ok(v) => v,
            Err(e) => { return Err(e) },
        };
        let ghost ev: SpecExtension = ext@;
        extensions.push(ext);
        proof {
            assert(extensions@.map_values(|e: Extension<'a>| e@) =~= es.push(ev));
            match spec_extension_entries(sub.skip(p + 4 + ext_len as int)) {
                Ok((rest, _g)) => {
                    assert(es + (seq![ev] + rest) =~= es.push(ev) + rest);
                },
                Err(_) => {},
            }
        }
        left = inner.remaining();
    }
    proof {
        match spec_extension_entries(sub) {
            Ok((_all, _g)) => {
                assert(extensions@.map_values(|e: Extension<'a>| e@) + Seq::<SpecExtension>::empty()
                    =~= extensions@.map_values(|e: Extension<'a>| e@));
            },
            Err(_) => {},
        }
    }
    Ok(extensions)
}

fn parse_body<'a>(data: &'a [u8]) -> (r: Result<ClientHello<'a>, Error>)
    ensures
        match r {
            Ok(ch) => spec_body(data@) == Ok::<SpecClientHello, SpecError>(ch@),
            Err(e) => spec_body(data@) == Err::<SpecClientHello, SpecError>(e@),
        },
{
    let mut r = Reader::new(data);
    let mut has_grease = false;

    let legacy_version = match r.read_u16("legacy version") {
        Ok(v) => v,
        Err(e) => { return Err(e) },
    };
    let random = match r.read_bytes(32, "client random") {
        Ok(v) => v,
        Err(e) => { return Err(e) },
    };
    let sid_len = match r.read_u8("session ID length") {
        Ok(v) => v,
        Err(e) => { return Err(e) },
    };
    let session_id = match r.read_bytes(sid_len as usize, "session ID") {
        Ok(v) => v,
        Err(e) => { return Err(e) },
    };
    let cipher_suites = match parse_cipher_suites(&mut r, &mut has_grease) {
        Ok(v) => v,
        Err(e) => { return Err(e) },
    };
    let comp_len = match r.read_u8("compression methods length") {
        Ok(v) => v,
        Err(e) => { return Err(e) },
    };
    let compression_methods = match r.read_bytes(comp_len as usize, "compression methods") {
        Ok(v) => v,
        Err(e) => { return Err(e) },
    };
    let extensions = if r.remaining() >= 2 {
        match parse_extensions(&mut r, &mut has_grease) {
            Ok(v) => v,
            Err(e) => { return Err(e) },
        }
    } else {
        Vec::new()
    };
    let hello = ClientHello {
        legacy_version,
        random,
        session_id,
        cipher_suites,
        compression_methods,
        extensions,
        has_grease,
    };
    proof {
        assert(hello.extensions@.map_values(|e: Extension<'a>| e@) =~= hello@.extensions);
        if hello.extensions@.len() == 0 {
            assert(hello@.extensions =~= Seq::<SpecExtension>::empty());
        }
    }
    Ok(hello)
}

/// Parse a TLS ClientHello from a raw Handshake message.
///
/// The input should begin with the handshake type byte `0x01`. This is the
/// format seen in QUIC CRYPTO frames where the record layer has already
/// been removed.
///
/// # Errors
///
/// Returns an error when the data is truncated, the handshake type is not
/// ClientHello, or any field cannot be decoded; the contract ties the
/// exact outcome to [`spec_parse`].
pub fn parse<'a>(data: &'a [u8]) -> (r: Result<ClientHello<'a>, Error>)
    ensures
        match r {
            Ok(ch) => spec_parse(data@) == Ok::<SpecClientHello, SpecError>(ch@),
            Err(e) => spec_parse(data@) == Err::<SpecClientHello, SpecError>(e@),
        },
{
    if data.is_empty() {
        return Err(Error::BufferTooShort { need: 1, have: 0 });
    }
    let mut r = Reader::new(data);
    let hs_type = match r.read_u8("handshake type") {
        Ok(v) => v,
        Err(_) => { return unreached() },
    };
    if hs_type != 0x01 {
        return Err(Error::NotClientHello(hs_type));
    }
    let body_len = match r.read_u24("handshake length") {
        Ok(v) => v,
        Err(e) => { return Err(e) },
    };
    let body = match r.read_bytes(body_len as usize, "handshake body") {
        Ok(v) => v,
        Err(e) => { return Err(e) },
    };
    parse_body(body)
}

/// Parse a TLS ClientHello from a TLS record-layer message.
///
/// The input should begin with the content type byte `0x16` (Handshake).
/// The record layer header is stripped before the contained handshake
/// message is forwarded to [`parse`].
///
/// # Errors
///
/// Returns an error when the record layer is invalid, the data is
/// truncated, or the inner handshake is not a ClientHello; the contract
/// ties the exact outcome to [`spec_parse_record`].
pub fn parse_from_record<'a>(data: &'a [u8]) -> (r: Result<ClientHello<'a>, Error>)
    ensures
        match r {
            Ok(ch) => spec_parse_record(data@) == Ok::<SpecClientHello, SpecError>(ch@),
            Err(e) => spec_parse_record(data@) == Err::<SpecClientHello, SpecError>(e@),
        },
{
    if data.len() < 5 {
        return Err(Error::BufferTooShort { need: 5, have: data.len() });
    }
    let mut r = Reader::new(data);
    let content_type = match r.read_u8("record content type") {
        Ok(v) => v,
        Err(_) => { return unreached() },
    };
    if content_type != 0x16 {
        return Err(Error::NotHandshakeRecord(content_type));
    }
    let _version = match r.read_u16("record protocol version") {
        Ok(v) => v,
        Err(_) => { return unreached() },
    };
    let record_len = match r.read_u16("record length") {
        Ok(v) => v,
        Err(_) => { return unreached() },
    };
    let handshake = match r.read_bytes(record_len as usize, "record payload") {
        Ok(v) => v,
        Err(e) => { return Err(e) },
    };
    parse(handshake)
}

} // verus!
