//! Zero-copy TLS ClientHello parser.
//!
//! Supports two input formats:
//!
//! - TLS records with a record-layer header (first byte `0x16`) via
//!   [`parse_from_record`].
//! - Raw handshake messages without a record layer (first byte `0x01`)
//!   via [`parse`], suitable for QUIC CRYPTO frames.
//!
//! Every decoding function carries a contract tying its outcome — the parsed
//! value or the exact error — to a mathematical model of the wire format.

use vstd::prelude::*;

pub mod error;
pub mod extension;
pub mod grease;
pub mod parser;
pub mod reader;

pub use crate::error::Error;
pub use crate::error::SpecError;
pub use crate::extension::Extension;
pub use crate::extension::ServerName;
pub use crate::extension::SpecExtension;
pub use crate::extension::SpecServerName;
pub use crate::extension::seq_no_grease;
pub use crate::extension::spec_extension_clean;
pub use crate::grease::is_grease;
pub use crate::grease::lemma_grease_values;
pub use crate::grease::spec_is_grease;
pub use crate::parser::parse;
pub use crate::parser::parse_from_record;
pub use crate::parser::spec_body;
pub use crate::parser::spec_parse;
pub use crate::parser::spec_parse_record;

verus! {

/// Parsed TLS ClientHello message holding zero-copy references into the
/// original byte buffer.
#[derive(Debug, Clone, PartialEq, Eq)]
pub struct ClientHello<'a> {
    /// Legacy protocol version (usually `0x0303` for TLS 1.2).
    pub legacy_version: u16,
    /// 32-byte client random.
    pub random: &'a [u8],
    /// Session ID (may be empty).
    pub session_id: &'a [u8],
    /// Cipher suite identifiers with GREASE values removed.
    pub cipher_suites: Vec<u16>,
    /// Compression method bytes.
    pub compression_methods: &'a [u8],
    /// Parsed extensions.
    pub extensions: Vec<Extension<'a>>,
    /// Set to `true` when any GREASE value was encountered during parsing.
    pub has_grease: bool,
}

/// Mathematical model of a [`ClientHello`], with every buffer replaced by
/// the byte sequence it holds.
pub struct SpecClientHello {
    pub legacy_version: u16,
    pub random: Seq<u8>,
    pub session_id: Seq<u8>,
    pub cipher_suites: Seq<u16>,
    pub compression_methods: Seq<u8>,
    pub extensions: Seq<SpecExtension>,
    pub has_grease: bool,
}

impl<'a> View for ClientHello<'a> {
    type V = SpecClientHello;

    open spec fn view(&self) -> SpecClientHello {
        SpecClientHello {
            legacy_version: self.legacy_version,
            random: self.random@,
            session_id: self.session_id@,
            cipher_suites: self.cipher_suites@,
            compression_methods: self.compression_methods@,
            extensions: self.extensions@.map_values(|e: Extension<'a>| e@),
            has_grease: self.has_grease,
        }
    }
}

/// The name bytes of the first DNS-hostname entry (name type `0x00`) of an
/// SNI entry list, in wire order.
pub open spec fn spec_first_dns_in(names: Seq<SpecServerName>) -> Option<Seq<u8>>
    decreases names.len(),
{
    if names.len() == 0 {
        None
    } else if names[0].name_type == 0x00 {
        Some(names[0].name)
    } else {
        spec_first_dns_in(names.skip(1))
    }
}

/// The name bytes handed back by the server-name query: the first
/// DNS-hostname entry found scanning the ServerName extensions in wire
/// order.
pub open spec fn spec_server_name_bytes(exts: Seq<SpecExtension>) -> Option<Seq<u8>>
    decreases exts.len(),
{
    if exts.len() == 0 {
        None
    } else {
        match exts[0] {
            SpecExtension::ServerName(names) => match spec_first_dns_in(names) {
                Some(name) => Some(name),
                None => spec_server_name_bytes(exts.skip(1)),
            },
            _ => spec_server_name_bytes(exts.skip(1)),
        }
    }
}

/// The protocol list of the first ALPN extension, or empty if none.
pub open spec fn spec_alpn_of(exts: Seq<SpecExtension>) -> Seq<Seq<u8>>
    decreases exts.len(),
{
    if exts.len() == 0 {
        seq![]
    } else {
        match exts[0] {
            SpecExtension::Alpn(protocols) => protocols,
            _ => spec_alpn_of(exts.skip(1)),
        }
    }
}

/// The version list of the first SupportedVersions extension, or empty if
/// none.
pub open spec fn spec_supported_versions_of(exts: Seq<SpecExtension>) -> Seq<u16>
    decreases exts.len(),
{
    if exts.len() == 0 {
        seq![]
    } else {
        match exts[0] {
            SpecExtension::SupportedVersions(v) => v,
            _ => spec_supported_versions_of(exts.skip(1)),
        }
    }
}

/// The group list of the first SupportedGroups extension, or empty if none.
pub open spec fn spec_supported_groups_of(exts: Seq<SpecExtension>) -> Seq<u16>
    decreases exts.len(),
{
    if exts.len() == 0 {
        seq![]
    } else {
        match exts[0] {
            SpecExtension::SupportedGroups(v) => v,
            _ => spec_supported_groups_of(exts.skip(1)),
        }
    }
}

/// The algorithm list of the first SignatureAlgorithms extension, or empty
/// if none.
pub open spec fn spec_signature_algorithms_of(exts: Seq<SpecExtension>) -> Seq<u16>
    decreases exts.len(),
{
    if exts.len() == 0 {
        seq![]
    } else {
        match exts[0] {
            SpecExtension::SignatureAlgorithms(v) => v,
            _ => spec_signature_algorithms_of(exts.skip(1)),
        }
    }
}

/// The group list of the first KeyShareGroups extension, or empty if none.
pub open spec fn spec_key_share_groups_of(exts: Seq<SpecExtension>) -> Seq<u16>
    decreases exts.len(),
{
    if exts.len() == 0 {
        seq![]
    } else {
        match exts[0] {
            SpecExtension::KeyShareGroups(v) => v,
            _ => spec_key_share_groups_of(exts.skip(1)),
        }
    }
}

/// Whether any RenegotiationInfo extension is present.
pub open spec fn spec_has_renegotiation_info(exts: Seq<SpecExtension>) -> bool {
    exists|i: int| 0 <= i < exts.len() && exts[i] is RenegotiationInfo
}

/// The raw body handed back by a query for `type_id`: the body of the
/// first RenegotiationInfo extension when queried with its reserved
/// identifier `0xFF01`, or of the first Unknown extension whose identifier
/// matches; nothing for identifiers decoded into structured variants.
pub open spec fn spec_find_extension(exts: Seq<SpecExtension>, type_id: u16) -> Option<Seq<u8>>
    decreases exts.len(),
{
    if exts.len() == 0 {
        None
    } else {
        match exts[0] {
            SpecExtension::RenegotiationInfo(data) => if type_id == 0xFF01 {
                Some(data)
            } else {
                spec_find_extension(exts.skip(1), type_id)
            },
            SpecExtension::Unknown { type_id: id, data } => if id == type_id {
                Some(data)
            } else {
                spec_find_extension(exts.skip(1), type_id)
            },
            _ => spec_find_extension(exts.skip(1), type_id),
        }
    }
}

/// Relies on core::str::from_utf8: it returns a string slice over exactly
/// the given bytes when they are valid UTF-8, and fails otherwise.
#[verifier::external_body]
fn bytes_as_utf8<'a>(bytes: &'a [u8]) -> (r: Option<&'a str>)
    ensures
        r is Some <==> vstd::utf8::valid_utf8(bytes@),
        r matches Some(s) ==> s@ == vstd::utf8::decode_utf8(bytes@),
{
    core::str::from_utf8(bytes).ok()
}

impl<'a> ClientHello<'a> {
    /// Return the first DNS hostname from the SNI extension.
    #[verifier::loop_isolation(false)]
    #[must_use]
    pub fn server_name(&self) -> (r: Option<&str>)
        ensures
            match spec_server_name_bytes(self@.extensions) {
                None => r is None,
                Some(name) => if vstd::utf8::valid_utf8(name) {
                    r matches Some(s) && s@ == vstd::utf8::decode_utf8(name)
                } else {
                    r is None
                },
            },
    {
        let ghost exts: Seq<SpecExtension> = self@.extensions;
        let n = self.extensions.len();
        let mut i: usize = 0;
        proof {
            assert(exts.skip(0) =~= exts);
        }
        while i < n
            invariant
                0 <= i <= n,
                n == self.extensions.len(),
                spec_server_name_bytes(exts) == spec_server_name_bytes(exts.skip(i as int)),
            decreases n - i,
        {
            proof {
                assert(exts.skip(i as int)[0] == exts[i as int]);
            }
            match &self.extensions[i] {
                Extension::ServerName(names) => {
                    let ghost nseq: Seq<SpecServerName> = names@.map_values(
                        |x: ServerName<'a>| x@,
                    );
                    let m = names.len();
                    let mut j: usize = 0;
                    proof {
                        assert(nseq.skip(0) =~= nseq);
                    }
                    while j < m
                        invariant
                            0 <= j <= m,
                            m == names.len(),
                            spec_first_dns_in(nseq) == spec_first_dns_in(nseq.skip(j as int)),
                        decreases m - j,
                    {
                        proof {
                            assert(nseq.skip(j as int)[0] == nseq[j as int]);
                        }
                        let sn = &names[j];
                        if sn.name_type == 0x00 {
                            return bytes_as_utf8(sn.name);
                        }
                        proof {
                            assert(nseq.skip(j as int).skip(1) =~= nseq.skip(j as int + 1));
                        }
                        j = j + 1;
                    }
                    proof {
                        assert(nseq.skip(m as int) =~= Seq::<SpecServerName>::empty());
                    }
                },
                _ => {},
            }
            proof {
                assert(exts.skip(i as int).skip(1) =~= exts.skip(i as int + 1));
            }
            i = i + 1;
        }
        proof {
            assert(exts.skip(n as int) =~= Seq::<SpecExtension>::empty());
        }
        None
    }

    /// Collect all ALPN protocol identifiers.
    #[verifier::loop_isolation(false)]
    #[must_use]
    pub fn alpn_protocols(&self) -> (r: Vec<&'a [u8]>)
        ensures
            r@.map_values(|p: &[u8]| p@) == spec_alpn_of(self@.extensions),
    {
        let ghost exts: Seq<SpecExtension> = self@.extensions;
        let n = self.extensions.len();
        let mut i: usize = 0;
        proof {
            assert(exts.skip(0) =~= exts);
        }
        while i < n
            invariant
                0 <= i <= n,
                n == self.extensions.len(),
                spec_alpn_of(exts) == spec_alpn_of(exts.skip(i as int)),
            decreases n - i,
        {
            proof {
                assert(exts.skip(i as int)[0] == exts[i as int]);
            }
            match &self.extensions[i] {
                Extension::Alpn(protocols) => {
                    return vstd::slice::slice_to_vec(protocols.as_slice());
                },
                _ => {},
            }
            proof {
                assert(exts.skip(i as int).skip(1) =~= exts.skip(i as int + 1));
            }
            i = i + 1;
        }
        let empty: Vec<&'a [u8]> = Vec::new();
        proof {
            assert(exts.skip(n as int) =~= Seq::<SpecExtension>::empty());
            assert(empty@.map_values(|p: &[u8]| p@) =~= Seq::<Seq<u8>>::empty());
        }
        empty
    }

    /// Return supported TLS versions (GREASE values already excluded).
    #[verifier::loop_isolation(false)]
    #[must_use]
    pub fn supported_versions(&self) -> (r: Vec<u16>)
        ensures
            r@ == spec_supported_versions_of(self@.extensions),
    {
        let ghost exts: Seq<SpecExtension> = self@.extensions;
        let n = self.extensions.len();
        let mut i: usize = 0;
        proof {
            assert(exts.skip(0) =~= exts);
        }
        while i < n
            invariant
                0 <= i <= n,
                n == self.extensions.len(),
                spec_supported_versions_of(exts) == spec_supported_versions_of(
                    exts.skip(i as int),
                ),
            decreases n - i,
        {
            proof {
                assert(exts.skip(i as int)[0] == exts[i as int]);
            }
            match &self.extensions[i] {
                Extension::SupportedVersions(v) => {
                    return vstd::slice::slice_to_vec(v.as_slice());
                },
                _ => {},
            }
            proof {
                assert(exts.skip(i as int).skip(1) =~= exts.skip(i as int + 1));
            }
            i = i + 1;
        }
        proof {
            assert(exts.skip(n as int) =~= Seq::<SpecExtension>::empty());
        }
        Vec::new()
    }

    /// Return supported groups / named curves (GREASE values already
    /// excluded).
    #[verifier::loop_isolation(false)]
    #[must_use]
    pub fn supported_groups(&self) -> (r: Vec<u16>)
        ensures
            r@ == spec_supported_groups_of(self@.extensions),
    {
        let ghost exts: Seq<SpecExtension> = self@.extensions;
        let n = self.extensions.len();
        let mut i: usize = 0;
        proof {
            assert(exts.skip(0) =~= exts);
        }
        while i < n
            invariant
                0 <= i <= n,
                n == self.extensions.len(),
                spec_supported_groups_of(exts) == spec_supported_groups_of(exts.skip(i as int)),
            decreases n - i,
        {
            proof {
                assert(exts.skip(i as int)[0] == exts[i as int]);
            }
            match &self.extensions[i] {
                Extension::SupportedGroups(v) => {
                    return vstd::slice::slice_to_vec(v.as_slice());
                },
                _ => {},
            }
            proof {
                assert(exts.skip(i as int).skip(1) =~= exts.skip(i as int + 1));
            }
            i = i + 1;
        }
        proof {
            assert(exts.skip(n as int) =~= Seq::<SpecExtension>::empty());
        }
        Vec::new()
    }

    /// Return signature algorithm identifiers.
    #[verifier::loop_isolation(false)]
    #[must_use]
    pub fn signature_algorithms(&self) -> (r: Vec<u16>)
        ensures
            r@ == spec_signature_algorithms_of(self@.extensions),
    {
        let ghost exts: Seq<SpecExtension> = self@.extensions;
        let n = self.extensions.len();
        let mut i: usize = 0;
        proof {
            assert(exts.skip(0) =~= exts);
        }
        while i < n
            invariant
                0 <= i <= n,
                n == self.extensions.len(),
                spec_signature_algorithms_of(exts) == spec_signature_algorithms_of(
                    exts.skip(i as int),
                ),
            decreases n - i,
        {
            proof {
                assert(exts.skip(i as int)[0] == exts[i as int]);
            }
            match &self.extensions[i] {
                Extension::SignatureAlgorithms(v) => {
                    return vstd::slice::slice_to_vec(v.as_slice());
                },
                _ => {},
            }
            proof {
                assert(exts.skip(i as int).skip(1) =~= exts.skip(i as int + 1));
            }
            i = i + 1;
        }
        proof {
            assert(exts.skip(n as int) =~= Seq::<SpecExtension>::empty());
        }
        Vec::new()
    }

    /// Return key-share group identifiers (GREASE values already excluded).
    #[verifier::loop_isolation(false)]
    #[must_use]
    pub fn key_share_groups(&self) -> (r: Vec<u16>)
        ensures
            r@ == spec_key_share_groups_of(self@.extensions),
    {
        let ghost exts: Seq<SpecExtension> = self@.extensions;
        let n = self.extensions.len();
        let mut i: usize = 0;
        proof {
            assert(exts.skip(0) =~= exts);
        }
        while i < n
            invariant
                0 <= i <= n,
                n == self.extensions.len(),
                spec_key_share_groups_of(exts) == spec_key_share_groups_of(exts.skip(i as int)),
            decreases n - i,
        {
            proof {
                assert(exts.skip(i as int)[0] == exts[i as int]);
            }
            match &self.extensions[i] {
                Extension::KeyShareGroups(v) => {
                    return vstd::slice::slice_to_vec(v.as_slice());
                },
                _ => {},
            }
            proof {
                assert(exts.skip(i as int).skip(1) =~= exts.skip(i as int + 1));
            }
            i = i + 1;
        }
        proof {
            assert(exts.skip(n as int) =~= Seq::<SpecExtension>::empty());
        }
        Vec::new()
    }

    /// Check whether a renegotiation info extension is present.
    #[verifier::loop_isolation(false)]
    #[must_use]
    pub fn has_renegotiation_info(&self) -> (r: bool)
        ensures
            r == spec_has_renegotiation_info(self@.extensions),
    {
        let ghost exts: Seq<SpecExtension> = self@.extensions;
        let n = self.extensions.len();
        let mut i: usize = 0;
        proof {
            assert(exts.skip(0) =~= exts);
        }
        while i < n
            invariant
                0 <= i <= n,
                n == self.extensions.len(),
                forall|k: int| 0 <= k < i ==> !(#[trigger] exts[k] is RenegotiationInfo),
            decreases n - i,
        {
            match &self.extensions[i] {
                Extension::RenegotiationInfo(_) => {
                    proof {
                        assert(exts[i as int] is RenegotiationInfo);
                    }
                    return true;
                },
                _ => {},
            }
            i = i + 1;
        }
        false
    }

    /// Find the raw data of an extension by its type identifier.
    ///
    /// Searches unknown extensions and renegotiation info. Returns
    /// `None` for extension types that were parsed into structured
    /// variants.
    #[verifier::loop_isolation(false)]
    #[must_use]
    pub fn find_extension(&self, type_id: u16) -> (r: Option<&[u8]>)
        ensures
            match spec_find_extension(self@.extensions, type_id) {
                None => r is None,
                Some(d) => r matches Some(s) && s@ == d,
            },
    {
        let ghost exts: Seq<SpecExtension> = self@.extensions;
        let n = self.extensions.len();
        let mut i: usize = 0;
        proof {
            assert(exts.skip(0) =~= exts);
        }
        while i < n
            invariant
                0 <= i <= n,
                n == self.extensions.len(),
                spec_find_extension(exts, type_id) == spec_find_extension(
                    exts.skip(i as int),
                    type_id,
                ),
            decreases n - i,
        {
            proof {
                assert(exts.skip(i as int)[0] == exts[i as int]);
            }
            match &self.extensions[i] {
                Extension::RenegotiationInfo(data) => {
                    if type_id == 0xFF01 {
                        return Some(data);
                    }
                },
                Extension::Unknown { type_id: id, data } => {
                    if *id == type_id {
                        return Some(data);
                    }
                },
                _ => {},
            }
            proof {
                assert(exts.skip(i as int).skip(1) =~= exts.skip(i as int + 1));
            }
            i = i + 1;
        }
        proof {
            assert(exts.skip(n as int) =~= Seq::<SpecExtension>::empty());
        }
        None
    }
}

proof fn lemma_first_match_grease_free(exts: Seq<SpecExtension>)
    requires
        forall|i: int| 0 <= i < exts.len() ==> spec_extension_clean(#[trigger] exts[i]),
    ensures
        seq_no_grease(spec_supported_versions_of(exts)),
        seq_no_grease(spec_supported_groups_of(exts)),
        seq_no_grease(spec_key_share_groups_of(exts)),
    decreases exts.len(),
{
    if exts.len() == 0 {
    } else {
        assert(spec_extension_clean(exts[0]));
        assert forall|i: int| 0 <= i < exts.skip(1).len() implies spec_extension_clean(
            #[trigger] exts.skip(1)[i],
        ) by {
            assert(exts.skip(1)[i] == exts[i + 1]);
        }
        lemma_first_match_grease_free(exts.skip(1));
    }
}

/// For any successfully decoded ClientHello — from either entry point —
/// the cipher-suite list holds no GREASE value, every GREASE-filtered
/// extension list is clean, and the supported-versions, supported-groups
/// and key-share-groups queries hand back GREASE-free lists. Signature
/// algorithms are deliberately kept verbatim.
pub proof fn lemma_no_grease_in_decoded(d: Seq<u8>, ch: SpecClientHello)
    requires
        spec_parse(d) == Ok::<SpecClientHello, SpecError>(ch) || spec_parse_record(d) == Ok::<
            SpecClientHello,
            SpecError,
        >(ch),
    ensures
        seq_no_grease(ch.cipher_suites),
        forall|i: int| 0 <= i < ch.extensions.len() ==> spec_extension_clean(
            #[trigger] ch.extensions[i],
        ),
        seq_no_grease(spec_supported_versions_of(ch.extensions)),
        seq_no_grease(spec_supported_groups_of(ch.extensions)),
        seq_no_grease(spec_key_share_groups_of(ch.extensions)),
{
    if spec_parse(d) == Ok::<SpecClientHello, SpecError>(ch) {
        let body_len = crate::reader::u24_be(d[1], d[2], d[3]) as int;
        crate::parser::lemma_body_clean(d.subrange(4, 4 + body_len));
    } else {
        let record_len = crate::reader::u16_be(d[3], d[4]) as int;
        let inner = d.subrange(5, 5 + record_len);
        let body_len = crate::reader::u24_be(inner[1], inner[2], inner[3]) as int;
        crate::parser::lemma_body_clean(inner.subrange(4, 4 + body_len));
    }
    lemma_first_match_grease_free(ch.extensions);
}

} // verus!
