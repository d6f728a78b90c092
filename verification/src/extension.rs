use vstd::prelude::*;

use crate::error::Error;
use crate::error::SpecError;
use crate::grease::is_grease;
use crate::grease::spec_is_grease;
use crate::reader::Reader;
use crate::reader::u16_be;
use vstd::slice::slice_to_vec;

verus! {

broadcast use vstd::seq::group_seq_axioms, vstd::seq_lib::group_seq_properties, vstd::seq_lib::group_seq_lib_default;

/// A parsed TLS extension from the ClientHello message.
#[derive(Debug, Clone, PartialEq, Eq)]
#[non_exhaustive]
pub enum Extension<'a> {
    /// Server Name Indication (type `0x0000`).
    ServerName(Vec<ServerName<'a>>),
    /// Application-Layer Protocol Negotiation (type `0x0010`).
    Alpn(Vec<&'a [u8]>),
    /// Supported Versions (type `0x002b`), GREASE values excluded.
    SupportedVersions(Vec<u16>),
    /// Supported Groups / Named Curves (type `0x000a`), GREASE values excluded.
    SupportedGroups(Vec<u16>),
    /// Signature Algorithms (type `0x000d`).
    SignatureAlgorithms(Vec<u16>),
    /// Key Share entry groups (type `0x0033`), GREASE values excluded.
    KeyShareGroups(Vec<u16>),
    /// PSK Key Exchange Modes (type `0x002d`).
    PskExchangeModes(Vec<u8>),
    /// Renegotiation Info (type `0xff01`).
    RenegotiationInfo(&'a [u8]),
    /// Unknown or unhandled extension preserved as raw bytes.
    Unknown {
        /// TLS extension type identifier.
        type_id: u16,
        /// Raw extension data.
        data: &'a [u8],
    },
}

/// A single entry in the SNI (Server Name Indication) list.
#[derive(Debug, Clone, PartialEq, Eq)]
pub struct ServerName<'a> {
    /// Name type byte; `0x00` indicates a DNS hostname.
    pub name_type: u8,
    /// Raw name bytes.
    pub name: &'a [u8],
}

/// Mathematical model of a [`ServerName`] entry.
pub struct SpecServerName {
    pub name_type: u8,
    pub name: Seq<u8>,
}

/// Mathematical model of an [`Extension`], with every borrowed or owned
/// byte buffer replaced by the byte sequence it holds.
pub enum SpecExtension {
    ServerName(Seq<SpecServerName>),
    Alpn(Seq<Seq<u8>>),
    SupportedVersions(Seq<u16>),
    SupportedGroups(Seq<u16>),
    SignatureAlgorithms(Seq<u16>),
    KeyShareGroups(Seq<u16>),
    PskExchangeModes(Seq<u8>),
    RenegotiationInfo(Seq<u8>),
    Unknown { type_id: u16, data: Seq<u8> },
}

impl<'a> View for ServerName<'a> {
    type V = SpecServerName;

    open spec fn view(&self) -> SpecServerName {
        SpecServerName { name_type: self.name_type, name: self.name@ }
    }
}

impl<'a> View for Extension<'a> {
    type V = SpecExtension;

    open spec fn view(&self) -> SpecExtension {
        match self {
            Extension::ServerName(names) => SpecExtension::ServerName(
                names@.map_values(|n: ServerName<'a>| n@),
            ),
            Extension::Alpn(protocols) => SpecExtension::Alpn(
                protocols@.map_values(|p: &[u8]| p@),
            ),
            Extension::SupportedVersions(v) => SpecExtension::SupportedVersions(v@),
            Extension::SupportedGroups(v) => SpecExtension::SupportedGroups(v@),
            Extension::SignatureAlgorithms(v) => SpecExtension::SignatureAlgorithms(v@),
            Extension::KeyShareGroups(v) => SpecExtension::KeyShareGroups(v@),
            Extension::PskExchangeModes(m) => SpecExtension::PskExchangeModes(m@),
            Extension::RenegotiationInfo(d) => SpecExtension::RenegotiationInfo(d@),
            Extension::Unknown { type_id, data } => SpecExtension::Unknown {
                type_id: *type_id,
                data: data@,
            },
        }
    }
}

/// The 16-bit big-endian entries of a list body, in wire order; a dangling
/// final byte is ignored.
pub open spec fn u16_entries(d: Seq<u8>) -> Seq<u16>
    decreases d.len(),
{
    if d.len() < 2 {
        seq![]
    } else {
        seq![u16_be(d[0], d[1])] + u16_entries(d.skip(2))
    }
}

/// The 16-bit big-endian entries of a list body that are not GREASE values,
/// in wire order.
pub open spec fn grease_filtered(d: Seq<u8>) -> Seq<u16>
    decreases d.len(),
{
    if d.len() < 2 {
        seq![]
    } else {
        let v = u16_be(d[0], d[1]);
        if spec_is_grease(v) {
            grease_filtered(d.skip(2))
        } else {
            seq![v] + grease_filtered(d.skip(2))
        }
    }
}

/// Whether any 16-bit entry of a list body is a GREASE value.
pub open spec fn grease_in_u16s(d: Seq<u8>) -> bool
    decreases d.len(),
{
    if d.len() < 2 {
        false
    } else {
        spec_is_grease(u16_be(d[0], d[1])) || grease_in_u16s(d.skip(2))
    }
}

/// No entry of the list is a GREASE value.
pub open spec fn seq_no_grease(s: Seq<u16>) -> bool {
    forall|i: int| 0 <= i < s.len() ==> !spec_is_grease(#[trigger] s[i])
}

/// The GREASE filter keeps its word: no GREASE value survives it.
pub proof fn lemma_grease_filtered_clean(d: Seq<u8>)
    ensures
        seq_no_grease(grease_filtered(d)),
    decreases d.len(),
{
    if d.len() < 2 {
    } else {
        lemma_grease_filtered_clean(d.skip(2));
        let v = u16_be(d[0], d[1]);
        if !spec_is_grease(v) {
            assert forall|i: int| 0 <= i < grease_filtered(d).len() implies !spec_is_grease(
                grease_filtered(d)[i],
            ) by {
                if i > 0 {
                    assert(grease_filtered(d)[i] == grease_filtered(d.skip(2))[i - 1]);
                }
            }
        }
    }
}

/// The key-share decoder keeps its word: no GREASE group survives it.
pub proof fn lemma_key_share_entries_clean(d: Seq<u8>)
    ensures
        spec_key_share_entries(d) matches Ok((groups, g)) ==> seq_no_grease(groups),
    decreases d.len(),
{
    if d.len() < 4 {
    } else {
        let key_len = u16_be(d[2], d[3]) as int;
        if d.len() - 4 >= key_len {
            lemma_key_share_entries_clean(d.skip(4 + key_len));
            let group = u16_be(d[0], d[1]);
            if !spec_is_grease(group) {
                match spec_key_share_entries(d.skip(4 + key_len)) {
                    Ok((rest, _g)) => {
                        assert forall|i: int| 0 <= i < (seq![group] + rest).len() implies
                            !spec_is_grease((seq![group] + rest)[i]) by {
                            if i > 0 {
                                assert((seq![group] + rest)[i] == rest[i - 1]);
                            }
                        }
                    },
                    Err(_) => {},
                }
            }
        }
    }
}

/// The SNI entries encoded by a list body: name type, two-byte name length,
/// then the name bytes, repeated until the body is exhausted.
pub open spec fn spec_sni_entries(d: Seq<u8>) -> Result<Seq<SpecServerName>, SpecError>
    decreases d.len(),
{
    if d.len() == 0 {
        Ok(seq![])
    } else if d.len() < 3 {
        Err(SpecError::Truncated { field: "SNI name length"@ })
    } else {
        let name_len = u16_be(d[1], d[2]) as int;
        if d.len() - 3 < name_len {
            Err(SpecError::Truncated { field: "SNI name"@ })
        } else {
            match spec_sni_entries(d.skip(3 + name_len)) {
                Err(e) => Err(e),
                Ok(rest) => Ok(
                    seq![(SpecServerName { name_type: d[0], name: d.subrange(3, 3 + name_len) })]
                        + rest,
                ),
            }
        }
    }
}

/// The ALPN protocol names encoded by a list body: a one-byte length then
/// the protocol bytes, repeated until the body is exhausted.
pub open spec fn spec_alpn_entries(d: Seq<u8>) -> Result<Seq<Seq<u8>>, SpecError>
    decreases d.len(),
{
    if d.len() == 0 {
        Ok(seq![])
    } else {
        let proto_len = d[0] as int;
        if d.len() - 1 < proto_len {
            Err(SpecError::Truncated { field: "ALPN protocol"@ })
        } else {
            match spec_alpn_entries(d.skip(1 + proto_len)) {
                Err(e) => Err(e),
                Ok(rest) => Ok(seq![d.subrange(1, 1 + proto_len)] + rest),
            }
        }
    }
}

/// The non-GREASE key-share groups encoded by a list body, together with
/// whether any GREASE group was seen. Each entry is a two-byte group, a
/// two-byte key length, and the key bytes, which are discarded.
pub open spec fn spec_key_share_entries(d: Seq<u8>) -> Result<(Seq<u16>, bool), SpecError>
    decreases d.len(),
{
    if d.len() < 4 {
        Ok((seq![], false))
    } else {
        let group = u16_be(d[0], d[1]);
        let key_len = u16_be(d[2], d[3]) as int;
        if d.len() - 4 < key_len {
            Err(SpecError::Truncated { field: "key share key data"@ })
        } else {
            match spec_key_share_entries(d.skip(4 + key_len)) {
                Err(e) => Err(e),
                Ok((groups, g)) => if spec_is_grease(group) {
                    Ok((groups, true))
                } else {
                    Ok((seq![group] + groups, g))
                },
            }
        }
    }
}

/// Decoding of an SNI extension body: a two-byte list length bounding the
/// entry list; trailing bytes after the bounded list are ignored.
pub open spec fn spec_sni(d: Seq<u8>) -> Result<SpecExtension, SpecError> {
    if d.len() < 2 {
        Err(SpecError::Truncated { field: "SNI list length"@ })
    } else {
        let list_len = u16_be(d[0], d[1]) as int;
        if d.len() - 2 < list_len {
            Err(SpecError::Truncated { field: "SNI list data"@ })
        } else {
            match spec_sni_entries(d.subrange(2, 2 + list_len)) {
                Err(e) => Err(e),
                Ok(names) => Ok(SpecExtension::ServerName(names)),
            }
        }
    }
}

/// Decoding of a GREASE-filtered 16-bit list body with a two-byte list
/// length: the kept entries and whether any GREASE entry was seen.
pub open spec fn spec_u16_list_filtered(d: Seq<u8>) -> Result<(Seq<u16>, bool), SpecError> {
    if d.len() < 2 {
        Err(SpecError::Truncated { field: "u16 list length"@ })
    } else {
        let list_len = u16_be(d[0], d[1]) as int;
        if d.len() - 2 < list_len {
            Err(SpecError::Truncated { field: "u16 list data"@ })
        } else {
            let sub = d.subrange(2, 2 + list_len);
            Ok((grease_filtered(sub), grease_in_u16s(sub)))
        }
    }
}

/// Decoding of a signature-algorithms extension body: a two-byte list length
/// bounding 16-bit entries, kept verbatim — GREASE values included.
pub open spec fn spec_sig_algs(d: Seq<u8>) -> Result<SpecExtension, SpecError> {
    if d.len() < 2 {
        Err(SpecError::Truncated { field: "signature algorithms length"@ })
    } else {
        let list_len = u16_be(d[0], d[1]) as int;
        if d.len() - 2 < list_len {
            Err(SpecError::Truncated { field: "signature algorithms data"@ })
        } else {
            Ok(SpecExtension::SignatureAlgorithms(u16_entries(d.subrange(2, 2 + list_len))))
        }
    }
}

/// Decoding of an ALPN extension body: a two-byte list length bounding the
/// protocol list.
pub open spec fn spec_alpn(d: Seq<u8>) -> Result<SpecExtension, SpecError> {
    if d.len() < 2 {
        Err(SpecError::Truncated { field: "ALPN list length"@ })
    } else {
        let list_len = u16_be(d[0], d[1]) as int;
        if d.len() - 2 < list_len {
            Err(SpecError::Truncated { field: "ALPN list data"@ })
        } else {
            match spec_alpn_entries(d.subrange(2, 2 + list_len)) {
                Err(e) => Err(e),
                Ok(protocols) => Ok(SpecExtension::Alpn(protocols)),
            }
        }
    }
}

/// Decoding of a supported-versions extension body: a one-byte list length
/// bounding GREASE-filtered 16-bit entries.
pub open spec fn spec_supported_versions(d: Seq<u8>) -> Result<(Seq<u16>, bool), SpecError> {
    if d.len() < 1 {
        Err(SpecError::Truncated { field: "supported versions length"@ })
    } else {
        let list_len = d[0] as int;
        if d.len() - 1 < list_len {
            Err(SpecError::Truncated { field: "supported versions data"@ })
        } else {
            let sub = d.subrange(1, 1 + list_len);
            Ok((grease_filtered(sub), grease_in_u16s(sub)))
        }
    }
}

/// Decoding of a PSK key-exchange-modes extension body: a one-byte length,
/// then the mode bytes, kept as an owned copy.
pub open spec fn spec_psk_modes(d: Seq<u8>) -> Result<SpecExtension, SpecError> {
    if d.len() < 1 {
        Err(SpecError::Truncated { field: "PSK modes length"@ })
    } else {
        let list_len = d[0] as int;
        if d.len() - 1 < list_len {
            Err(SpecError::Truncated { field: "PSK modes data"@ })
        } else {
            Ok(SpecExtension::PskExchangeModes(d.subrange(1, 1 + list_len)))
        }
    }
}

/// Decoding of a key-share extension body: a two-byte list length bounding
/// the entry list.
pub open spec fn spec_key_share(d: Seq<u8>) -> Result<(Seq<u16>, bool), SpecError> {
    if d.len() < 2 {
        Err(SpecError::Truncated { field: "key share list length"@ })
    } else {
        let list_len = u16_be(d[0], d[1]) as int;
        if d.len() - 2 < list_len {
            Err(SpecError::Truncated { field: "key share list data"@ })
        } else {
            spec_key_share_entries(d.subrange(2, 2 + list_len))
        }
    }
}

/// Decoding of one extension, given its type identifier and its bounded
/// body: the typed extension value, and whether a GREASE value was seen in
/// the type identifier or in a GREASE-filtered list.
pub open spec fn spec_extension(type_id: u16, d: Seq<u8>) -> Result<
    (SpecExtension, bool),
    SpecError,
> {
    if spec_is_grease(type_id) {
        Ok((SpecExtension::Unknown { type_id, data: d }, true))
    } else if type_id == 0x0000 {
        match spec_sni(d) {
            Err(e) => Err(e),
            Ok(x) => Ok((x, false)),
        }
    } else if type_id == 0x000a {
        match spec_u16_list_filtered(d) {
            Err(e) => Err(e),
            Ok((v, g)) => Ok((SpecExtension::SupportedGroups(v), g)),
        }
    } else if type_id == 0x000d {
        match spec_sig_algs(d) {
            Err(e) => Err(e),
            Ok(x) => Ok((x, false)),
        }
    } else if type_id == 0x0010 {
        match spec_alpn(d) {
            Err(e) => Err(e),
            Ok(x) => Ok((x, false)),
        }
    } else if type_id == 0x002b {
        match spec_supported_versions(d) {
            Err(e) => Err(e),
            Ok((v, g)) => Ok((SpecExtension::SupportedVersions(v), g)),
        }
    } else if type_id == 0x002d {
        match spec_psk_modes(d) {
            Err(e) => Err(e),
            Ok(x) => Ok((x, false)),
        }
    } else if type_id == 0x0033 {
        match spec_key_share(d) {
            Err(e) => Err(e),
            Ok((v, g)) => Ok((SpecExtension::KeyShareGroups(v), g)),
        }
    } else if type_id == 0xff01 {
        Ok((SpecExtension::RenegotiationInfo(d), false))
    } else {
        Ok((SpecExtension::Unknown { type_id, data: d }, false))
    }
}

/// Whether a GREASE group identifier stands among the key-share entries
/// of a list body.
pub open spec fn grease_in_key_share(d: Seq<u8>) -> bool
    decreases d.len(),
{
    if d.len() < 4 {
        false
    } else {
        let key_len = u16_be(d[2], d[3]) as int;
        spec_is_grease(u16_be(d[0], d[1])) || (d.len() - 4 >= key_len && grease_in_key_share(
            d.skip(4 + key_len),
        ))
    }
}

/// On a body it decodes successfully, the key-share decoder reports
/// GREASE exactly when a GREASE group stands among the entries.
pub proof fn lemma_key_share_grease_scan(d: Seq<u8>)
    ensures
        spec_key_share_entries(d) matches Ok((groups, g)) ==> g == grease_in_key_share(d),
    decreases d.len(),
{
    if d.len() >= 4 {
        let key_len = u16_be(d[2], d[3]) as int;
        if d.len() - 4 >= key_len {
            lemma_key_share_grease_scan(d.skip(4 + key_len));
        }
    }
}

/// Whether a GREASE value stands where one extension's decoding looks for
/// one: in its type identifier, or among the entries of a GREASE-filtered
/// list (supported groups, supported versions, key-share groups).
pub open spec fn spec_extension_grease_scan(type_id: u16, d: Seq<u8>) -> bool {
    if spec_is_grease(type_id) {
        true
    } else if type_id == 0x000a {
        d.len() >= 2 && ({
            let list_len = u16_be(d[0], d[1]) as int;
            d.len() - 2 >= list_len && grease_in_u16s(d.subrange(2, 2 + list_len))
        })
    } else if type_id == 0x002b {
        d.len() >= 1 && ({
            let list_len = d[0] as int;
            d.len() - 1 >= list_len && grease_in_u16s(d.subrange(1, 1 + list_len))
        })
    } else if type_id == 0x0033 {
        d.len() >= 2 && ({
            let list_len = u16_be(d[0], d[1]) as int;
            d.len() - 2 >= list_len && grease_in_key_share(d.subrange(2, 2 + list_len))
        })
    } else {
        false
    }
}

/// On a body it decodes successfully, the extension dispatcher reports
/// GREASE exactly when [`spec_extension_grease_scan`] finds one.
pub proof fn lemma_extension_grease_scan(type_id: u16, d: Seq<u8>)
    ensures
        spec_extension(type_id, d) matches Ok((ext, g)) ==> g == spec_extension_grease_scan(
            type_id,
            d,
        ),
{
    if !spec_is_grease(type_id) && type_id == 0x0033 {
        if d.len() >= 2 {
            let list_len = u16_be(d[0], d[1]) as int;
            if d.len() - 2 >= list_len {
                lemma_key_share_grease_scan(d.subrange(2, 2 + list_len));
            }
        }
    }
}

/// A decoded extension holds no GREASE value in any of the lists the
/// decoder filters: supported versions, supported groups, and key-share
/// groups. Signature algorithms are deliberately kept verbatim.
pub open spec fn spec_extension_clean(ext: SpecExtension) -> bool {
    match ext {
        SpecExtension::SupportedVersions(v) => seq_no_grease(v),
        SpecExtension::SupportedGroups(v) => seq_no_grease(v),
        SpecExtension::KeyShareGroups(v) => seq_no_grease(v),
        _ => true,
    }
}

/// Whatever the type identifier and body, a successfully decoded
/// extension is clean: its GREASE-filtered lists hold no GREASE value.
pub proof fn lemma_spec_extension_clean(type_id: u16, d: Seq<u8>)
    ensures
        spec_extension(type_id, d) matches Ok((ext, g)) ==> spec_extension_clean(ext),
{
    if !spec_is_grease(type_id) {
        if type_id == 0x000a {
            if d.len() >= 2 {
                let list_len = u16_be(d[0], d[1]) as int;
                if d.len() - 2 >= list_len {
                    lemma_grease_filtered_clean(d.subrange(2, 2 + list_len));
                }
            }
        } else if type_id == 0x002b {
            if d.len() >= 1 {
                let list_len = d[0] as int;
                if d.len() - 1 >= list_len {
                    lemma_grease_filtered_clean(d.subrange(1, 1 + list_len));
                }
            }
        } else if type_id == 0x0033 {
            if d.len() >= 2 {
                let list_len = u16_be(d[0], d[1]) as int;
                if d.len() - 2 >= list_len {
                    lemma_key_share_entries_clean(d.subrange(2, 2 + list_len));
                }
            }
        }
    }
}

fn parse_u16_list_filtered(data: &[u8], has_grease: &mut bool) -> (r: Result<Vec<u16>, Error>)
    ensures
        (*old(has_grease) ==> *final(has_grease)),
        match r {
            Ok(v) => spec_u16_list_filtered(data@) matches Ok((vals, g)) && v@ == vals
                && *final(has_grease) == (*old(has_grease) || g),
            Err(e) => spec_u16_list_filtered(data@) == Err::<(Seq<u16>, bool), SpecError>(e@)
                && *final(has_grease) == *old(has_grease),
        },
{
    let mut r = Reader::new(data);
    let list_len = match r.read_u16("u16 list length") {
        Ok(v) => v,
        Err(e) => { return Err(e) },
    };
    let list_data = match r.read_bytes(list_len as usize, "u16 list data") {
        Ok(v) => v,
        Err(e) => { return Err(e) },
    };
    let ghost sub: Seq<u8> = list_data@;
    let ghost flag0: bool = *has_grease;
    let mut inner = Reader::new(list_data);
    let mut values: Vec<u16> = Vec::new();
    let mut left = inner.remaining();
    while left >= 2
        invariant
            inner.wf(),
            inner.data() == sub,
            left == inner.avail(),
            grease_filtered(sub) == values@ + grease_filtered(sub.skip(inner.pos())),
            (flag0 || grease_in_u16s(sub)) == (*has_grease || grease_in_u16s(
                sub.skip(inner.pos()),
            )),
        decreases left,
    {
        let ghost p: int = inner.pos();
        let ghost vs: Seq<u16> = values@;
        let val = match inner.read_u16("u16 list entry") {
            Ok(v) => v,
            Err(_) => { return unreached() },
        };
        proof {
            assert(sub.skip(p)[0] == sub[p]);
            assert(sub.skip(p)[1] == sub[p + 1]);
            assert(sub.skip(p).skip(2) =~= sub.skip(p + 2));
        }
        if is_grease(val) {
            *has_grease = true;
        } else {
            values.push(val);
            proof {
                assert(vs + (seq![val] + grease_filtered(sub.skip(p + 2))) =~= vs.push(val)
                    + grease_filtered(sub.skip(p + 2)));
            }
        }
        left = inner.remaining();
    }
    proof {
        assert(grease_filtered(sub.skip(inner.pos())) =~= Seq::<u16>::empty());
        assert(values@ + Seq::<u16>::empty() =~= values@);
    }
    Ok(values)
}

#[verifier::loop_isolation(false)]
fn parse_sni<'a>(data: &'a [u8]) -> (r: Result<Extension<'a>, Error>)
    ensures
        match r {
            Ok(ext) => spec_sni(data@) == Ok::<SpecExtension, SpecError>(ext@),
            Err(e) => spec_sni(data@) == Err::<SpecExtension, SpecError>(e@),
        },
{
    let mut r = Reader::new(data);
    let list_len = match r.read_u16("SNI list length") {
        Ok(v) => v,
        Err(e) => { return Err(e) },
    };
    let list_data = match r.read_bytes(list_len as usize, "SNI list data") {
        Ok(v) => v,
        Err(e) => { return Err(e) },
    };
    let ghost sub: Seq<u8> = list_data@;
    let mut inner = Reader::new(list_data);
    let mut names: Vec<ServerName<'a>> = Vec::new();
    let mut left = inner.remaining();
    while left > 0
        invariant
            inner.wf(),
            inner.data() == sub,
            left == inner.avail(),
            match spec_sni_entries(sub.skip(inner.pos())) {
                Ok(rest) => spec_sni_entries(sub) == Ok::<Seq<SpecServerName>, SpecError>(
                    names@.map_values(|n: ServerName<'a>| n@) + rest,
                ),
                Err(e) => spec_sni_entries(sub) == Err::<Seq<SpecServerName>, SpecError>(e),
            },
        decreases left,
    {
        let ghost p: int = inner.pos();
        let ghost ns: Seq<SpecServerName> = names@.map_values(|n: ServerName<'a>| n@);
        proof {
            assert(sub.skip(p)[0] == sub[p]);
        }
        let name_type = match inner.read_u8("SNI name type") {
            Ok(v) => v,
            Err(_) => { return unreached() },
        };
        let name_len = match inner.read_u16("SNI name length") {
            Ok(v) => v,
            Err(e) => { return Err(e) },
        };
        proof {
            assert(sub.skip(p)[1] == sub[p + 1]);
            assert(sub.skip(p)[2] == sub[p + 2]);
        }
        let name = match inner.read_bytes(name_len as usize, "SNI name") {
            Ok(v) => v,
            Err(e) => { return Err(e) },
        };
        let sn = ServerName { name_type, name };
        let ghost snv: SpecServerName = sn@;
        names.push(sn);
        proof {
            assert(sub.skip(p).subrange(3, 3 + name_len as int) =~= sub.subrange(
                p + 3,
                p + 3 + name_len as int,
            ));
            assert(sub.skip(p).skip(3 + name_len as int) =~= sub.skip(p + 3 + name_len as int));
            assert(names@.map_values(|n: ServerName<'a>| n@) =~= ns.push(snv));
            match spec_sni_entries(sub.skip(p + 3 + name_len as int)) {
                Ok(rest) => {
                    assert(ns + (seq![snv] + rest) =~= ns.push(snv) + rest);
                },
                Err(_) => {},
            }
        }
        left = inner.remaining();
    }
    proof {
        assert(names@.map_values(|n: ServerName<'a>| n@) + Seq::<SpecServerName>::empty()
            =~= names@.map_values(|n: ServerName<'a>| n@));
    }
    Ok(Extension::ServerName(names))
}

#[verifier::loop_isolation(false)]
fn parse_sig_algs<'a>(data: &'a [u8]) -> (r: Result<Extension<'a>, Error>)
    ensures
        match r {
            Ok(ext) => spec_sig_algs(data@) == Ok::<SpecExtension, SpecError>(ext@),
            Err(e) => spec_sig_algs(data@) == Err::<SpecExtension, SpecError>(e@),
        },
{
    let mut r = Reader::new(data);
    let list_len = match r.read_u16("signature algorithms length") {
        Ok(v) => v,
        Err(e) => { return Err(e) },
    };
    let list_data = match r.read_bytes(list_len as usize, "signature algorithms data") {
        Ok(v) => v,
        Err(e) => { return Err(e) },
    };
    let ghost sub: Seq<u8> = list_data@;
    let mut inner = Reader::new(list_data);
    let mut algs: Vec<u16> = Vec::new();
    let mut left = inner.remaining();
    while left >= 2
        invariant
            inner.wf(),
            inner.data() == sub,
            left == inner.avail(),
            u16_entries(sub) == algs@ + u16_entries(sub.skip(inner.pos())),
        decreases left,
    {
        let ghost p: int = inner.pos();
        let ghost vs: Seq<u16> = algs@;
        let val = match inner.read_u16("signature algorithm") {
            Ok(v) => v,
            Err(_) => { return unreached() },
        };
        proof {
            assert(sub.skip(p)[0] == sub[p]);
            assert(sub.skip(p)[1] == sub[p + 1]);
            assert(sub.skip(p).skip(2) =~= sub.skip(p + 2));
        }
        algs.push(val);
        proof {
            assert(vs + (seq![val] + u16_entries(sub.skip(p + 2))) =~= vs.push(val) + u16_entries(
                sub.skip(p + 2),
            ));
        }
        left = inner.remaining();
    }
    proof {
        assert(algs@ + Seq::<u16>::empty() =~= algs@);
    }
    Ok(Extension::SignatureAlgorithms(algs))
}

#[verifier::loop_isolation(false)]
fn parse_alpn<'a>(data: &'a [u8]) -> (r: Result<Extension<'a>, Error>)
    ensures
        match r {
            Ok(ext) => spec_alpn(data@) == Ok::<SpecExtension, SpecError>(ext@),
            Err(e) => spec_alpn(data@) == Err::<SpecExtension, SpecError>(e@),
        },
{
    let mut r = Reader::new(data);
    let list_len = match r.read_u16("ALPN list length") {
        Ok(v) => v,
        Err(e) => { return Err(e) },
    };
    let list_data = match r.read_bytes(list_len as usize, "ALPN list data") {
        Ok(v) => v,
        Err(e) => { return Err(e) },
    };
    let ghost sub: Seq<u8> = list_data@;
    let mut inner = Reader::new(list_data);
    let mut protocols: Vec<&'a [u8]> = Vec::new();
    let mut left = inner.remaining();
    while left > 0
        invariant
            inner.wf(),
            inner.data() == sub,
            left == inner.avail(),
            match spec_alpn_entries(sub.skip(inner.pos())) {
                Ok(rest) => spec_alpn_entries(sub) == Ok::<Seq<Seq<u8>>, SpecError>(
                    protocols@.map_values(|q: &[u8]| q@) + rest,
                ),
                Err(e) => spec_alpn_entries(sub) == Err::<Seq<Seq<u8>>, SpecError>(e),
            },
        decreases left,
    {
        let ghost p: int = inner.pos();
        let ghost ps: Seq<Seq<u8>> = protocols@.map_values(|q: &[u8]| q@);
        proof {
            assert(sub.skip(p)[0] == sub[p]);
        }
        let proto_len = match inner.read_u8("ALPN protocol length") {
            Ok(v) => v,
            Err(_) => { return unreached() },
        };
        let proto = match inner.read_bytes(proto_len as usize, "ALPN protocol") {
            Ok(v) => v,
            Err(e) => { return Err(e) },
        };
        protocols.push(proto);
        proof {
            assert(sub.skip(p).subrange(1, 1 + proto_len as int) =~= sub.subrange(
                p + 1,
                p + 1 + proto_len as int,
            ));
            assert(sub.skip(p).skip(1 + proto_len as int) =~= sub.skip(p + 1 + proto_len as int));
            assert(protocols@.map_values(|q: &[u8]| q@) =~= ps.push(proto@));
            match spec_alpn_entries(sub.skip(p + 1 + proto_len as int)) {
                Ok(rest) => {
                    assert(ps + (seq![proto@] + rest) =~= ps.push(proto@) + rest);
                },
                Err(_) => {},
            }
        }
        left = inner.remaining();
    }
    proof {
        assert(protocols@.map_values(|q: &[u8]| q@) + Seq::<Seq<u8>>::empty() =~= protocols@.map_values(
            |q: &[u8]| q@,
        ));
    }
    Ok(Extension::Alpn(protocols))
}

#[verifier::loop_isolation(false)]
fn parse_supported_versions<'a>(data: &'a [u8], has_grease: &mut bool) -> (r: Result<
    Extension<'a>,
    Error,
>)
    ensures
        (*old(has_grease) ==> *final(has_grease)),
        match r {
            Ok(ext) => spec_supported_versions(data@) matches Ok((vals, g)) && ext@
                == (SpecExtension::SupportedVersions(vals))
                && *final(has_grease) == (*old(has_grease) || g),
            Err(e) => spec_supported_versions(data@) == Err::<(Seq<u16>, bool), SpecError>(e@)
                && *final(has_grease) == *old(has_grease),
        },
{
    let mut r = Reader::new(data);
    let list_len = match r.read_u8("supported versions length") {
        Ok(v) => v,
        Err(e) => { return Err(e) },
    };
    let list_data = match r.read_bytes(list_len as usize, "supported versions data") {
        Ok(v) => v,
        Err(e) => { return Err(e) },
    };
    let ghost sub: Seq<u8> = list_data@;
    let ghost flag0: bool = *has_grease;
    let mut inner = Reader::new(list_data);
    let mut versions: Vec<u16> = Vec::new();
    let mut left = inner.remaining();
    while left >= 2
        invariant
            inner.wf(),
            inner.data() == sub,
            left == inner.avail(),
            grease_filtered(sub) == versions@ + grease_filtered(sub.skip(inner.pos())),
            (flag0 || grease_in_u16s(sub)) == (*has_grease || grease_in_u16s(
                sub.skip(inner.pos()),
            )),
        decreases left,
    {
        let ghost p: int = inner.pos();
        let ghost vs: Seq<u16> = versions@;
        let ver = match inner.read_u16("supported version") {
            Ok(v) => v,
            Err(_) => { return unreached() },
        };
        proof {
            assert(sub.skip(p)[0] == sub[p]);
            assert(sub.skip(p)[1] == sub[p + 1]);
            assert(sub.skip(p).skip(2) =~= sub.skip(p + 2));
        }
        if is_grease(ver) {
            *has_grease = true;
        } else {
            versions.push(ver);
            proof {
                assert(vs + (seq![ver] + grease_filtered(sub.skip(p + 2))) =~= vs.push(ver)
                    + grease_filtered(sub.skip(p + 2)));
            }
        }
        left = inner.remaining();
    }
    proof {
        assert(versions@ + Seq::<u16>::empty() =~= versions@);
    }
    Ok(Extension::SupportedVersions(versions))
}

fn parse_psk_modes<'a>(data: &'a [u8]) -> (r: Result<Extension<'a>, Error>)
    ensures
        match r {
            Ok(ext) => spec_psk_modes(data@) == Ok::<SpecExtension, SpecError>(ext@),
            Err(e) => spec_psk_modes(data@) == Err::<SpecExtension, SpecError>(e@),
        },
{
    let mut r = Reader::new(data);
    let list_len = match r.read_u8("PSK modes length") {
        Ok(v) => v,
        Err(e) => { return Err(e) },
    };
    let list_data = match r.read_bytes(list_len as usize, "PSK modes data") {
        Ok(v) => v,
        Err(e) => { return Err(e) },
    };
    Ok(Extension::PskExchangeModes(slice_to_vec(list_data)))
}

#[verifier::loop_isolation(false)]
#[verifier::rlimit(60)]
fn parse_key_share<'a>(data: &'a [u8], has_grease: &mut bool) -> (r: Result<Extension<'a>, Error>)
    ensures
        (*old(has_grease) ==> *final(has_grease)),
        match r {
            Ok(ext) => spec_key_share(data@) matches Ok((vals, g)) && ext@
                == (SpecExtension::KeyShareGroups(vals)) && *final(has_grease) == (*old(has_grease)
                || g),
            Err(e) => spec_key_share(data@) == Err::<(Seq<u16>, bool), SpecError>(e@),
        },
{
    let mut r = Reader::new(data);
    let list_len = match r.read_u16("key share list length") {
        Ok(v) => v,
        Err(e) => { return Err(e) },
    };
    let list_data = match r.read_bytes(list_len as usize, "key share list data") {
        Ok(v) => v,
        Err(e) => { return Err(e) },
    };
    let ghost sub: Seq<u8> = list_data@;
    let ghost flag0: bool = *has_grease;
    let mut inner = Reader::new(list_data);
    let mut groups: Vec<u16> = Vec::new();
    let mut left = inner.remaining();
    proof {
        assert(sub.skip(0) =~= sub);
        match spec_key_share_entries(sub) {
            Ok((gs, _g)) => {
                assert(Seq::<u16>::empty() + gs =~= gs);
            },
            Err(_) => {},
        }
    }
    while left >= 4
        invariant
            inner.wf(),
            inner.data() == sub,
            left == inner.avail(),
            (flag0 ==> *has_grease),
            match spec_key_share_entries(sub.skip(inner.pos())) {
                Ok((gs, g)) => spec_key_share_entries(sub) matches Ok((all, gall)) && all
                    == groups@ + gs && ((flag0 || gall) == (*has_grease || g)),
                Err(e) => spec_key_share_entries(sub) == Err::<(Seq<u16>, bool), SpecError>(e),
            },
        decreases left,
    {
        let ghost p: int = inner.pos();
        let ghost vs: Seq<u16> = groups@;
        proof {
            assert(sub.skip(p)[0] == sub[p]);
            assert(sub.skip(p)[1] == sub[p + 1]);
            assert(sub.skip(p)[2] == sub[p + 2]);
            assert(sub.skip(p)[3] == sub[p + 3]);
        }
        let group = match inner.read_u16("key share group") {
            Ok(v) => v,
            Err(_) => { return unreached() },
        };
        let key_len = match inner.read_u16("key share key length") {
            Ok(v) => v,
            Err(_) => { return unreached() },
        };
        let _key = match inner.read_bytes(key_len as usize, "key share key data") {
            Ok(v) => v,
            Err(e) => { return Err(e) },
        };
        proof {
            assert(sub.skip(p).skip(4 + key_len as int) =~= sub.skip(p + 4 + key_len as int));
        }
        if is_grease(group) {
            *has_grease = true;
        } else {
            groups.push(group);
            proof {
                match spec_key_share_entries(sub.skip(p + 4 + key_len as int)) {
                    Ok((gs, _g)) => {
                        assert(vs + (seq![group] + gs) =~= vs.push(group) + gs);
                    },
                    Err(_) => {},
                }
            }
        }
        left = inner.remaining();
    }
    proof {
        match spec_key_share_entries(sub) {
            Ok((all, _gall)) => {
                assert(groups@ + Seq::<u16>::empty() =~= groups@);
            },
            Err(_) => {},
        }
    }
    Ok(Extension::KeyShareGroups(groups))
}

pub(crate) fn parse_extension<'a>(type_id: u16, data: &'a [u8], has_grease: &mut bool) -> (r:
    Result<Extension<'a>, Error>)
    ensures
        (*old(has_grease) ==> *final(has_grease)),
        match r {
            Ok(ext) => spec_extension(type_id, data@) matches Ok((se, g)) && ext@ == se
                && *final(has_grease) == (*old(has_grease) || g),
            Err(e) => spec_extension(type_id, data@) == Err::<(SpecExtension, bool), SpecError>(
                e@,
            ),
        },
{
    if is_grease(type_id) {
        *has_grease = true;
        return Ok(Extension::Unknown { type_id, data });
    }
    match type_id {
        0x0000 => parse_sni(data),
        0x000a => parse_groups(data, has_grease),
        0x000d => parse_sig_algs(data),
        0x0010 => parse_alpn(data),
        0x002b => parse_supported_versions(data, has_grease),
        0x002d => parse_psk_modes(data),
        0x0033 => parse_key_share(data, has_grease),
        0xff01 => Ok(Extension::RenegotiationInfo(data)),
        _ => Ok(Extension::Unknown { type_id, data }),
    }
}

pub(crate) fn parse_groups<'a>(data: &'a [u8], has_grease: &mut bool) -> (r: Result<
    Extension<'a>,
    Error,
>)
    ensures
        (*old(has_grease) ==> *final(has_grease)),
        match r {
            Ok(ext) => spec_u16_list_filtered(data@) matches Ok((vals, g)) && ext@
                == (SpecExtension::SupportedGroups(vals)) && *final(has_grease) == (*old(has_grease)
                || g),
            Err(e) => spec_u16_list_filtered(data@) == Err::<(Seq<u16>, bool), SpecError>(e@)
                && *final(has_grease) == *old(has_grease),
        },
{
    match parse_u16_list_filtered(data, has_grease) {
        Ok(v) => Ok(Extension::SupportedGroups(v)),
        Err(e) => Err(e),
    }
}

} // verus!
