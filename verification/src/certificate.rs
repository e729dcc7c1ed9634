//! Commit certificates: the signatures of a quorum over one block, and their text form.

use std::collections::BTreeMap;

use vstd::prelude::*;

use crate::primitives::Address;
use crate::signature::{PQSignature, SignatureType, SignatureView};
use crate::table::Table;
use crate::text;

verus! {

/// The bytes that some hexadecimal digits stand for, two digits a byte, in either case.
pub open spec fn hex_decoded(digits: Seq<char>) -> Option<Seq<u8>>
    decreases digits.len(),
{
    let n = digits.len();
    if n == 0 {
        Some(Seq::empty())
    } else if n == 1 {
        None
    } else {
        match (
            hex_decoded(digits.take(n - 2)),
            text::digit_value(digits[n - 2]),
            text::digit_value(digits[n - 1]),
        ) {
            (Some(bytes), Some(high), Some(low)) => Some(bytes.push((16 * high + low) as u8)),
            _ => None,
        }
    }
}

/// `hex::decode`: the bytes that the text's hexadecimal digits stand for, two digits a byte, in
/// either case; none if the number of digits is odd or a character is no digit.
#[verifier::external_body]
fn decode_hex(digits: &str) -> (r: Option<Vec<u8>>)
    ensures
        match r {
            Some(bytes) => hex_decoded(digits@) == Some(bytes@),
            None => hex_decoded(digits@) is None,
        },
{
    hex::decode(digits).ok()
}

/// The address of some bytes.
pub open spec fn address_of(bytes: Seq<u8>) -> Address {
    choose|address: Address| address.bytes@ == bytes
}

proof fn lemma_address_of(address: Address)
    ensures
        address_of(address.bytes@) == address,
{
    let other = address_of(address.bytes@);
    assert(other.bytes@ == address.bytes@);
    assert(other.bytes =~= address.bytes);
}

/// The address that a text stands for: `0x` and thirty-two bytes in hexadecimal digits.
pub open spec fn parsed_address(shown: Seq<char>) -> Option<Address> {
    if shown.len() >= 2 && shown[0] == '0' && shown[1] == 'x' {
        match hex_decoded(shown.skip(2)) {
            Some(bytes) => if bytes.len() == 32 {
                Some(address_of(bytes))
            } else {
                None
            },
            None => None,
        }
    } else {
        None
    }
}

/// Parses an address.
pub fn parse_address(shown: &str) -> (r: Option<Address>)
    ensures
        r == parsed_address(shown@),
{
    let len: usize = shown.unicode_len();
    if len < 2 || shown.get_char(0) != '0' || shown.get_char(1) != 'x' {
        return None;
    }
    let digits = shown.substring_char(2, len);
    assert(digits@ =~= shown@.skip(2));
    match decode_hex(digits) {
        None => None,
        Some(decoded) => {
            if decoded.len() != 32 {
                return None;
            }
            let mut bytes: [u8; 32] = [0u8; 32];
            let mut i: usize = 0;
            while i < 32
                invariant
                    i <= 32,
                    decoded@.len() == 32,
                    forall|j: int| 0 <= j < i ==> bytes@[j] == decoded@[j],
                decreases 32 - i,
            {
                bytes[i] = decoded[i];
                i += 1;
            }
            assert(bytes@ =~= decoded@);
            let address = Address { bytes };
            proof {
                lemma_address_of(address);
            }
            Some(address)
        },
    }
}

/// The address part of a signer's text, which may stand between `Address(` and `)`.
pub open spec fn signer_text(raw: Seq<char>) -> Seq<char> {
    let open = "Address("@;
    if raw.len() > open.len() && raw.take(open.len() as int) == open && raw.last() == ')' {
        raw.subrange(open.len() as int, raw.len() - 1)
    } else {
        raw
    }
}

/// The signer that a text in a certificate stands for.
pub open spec fn certificate_signer(raw: Seq<char>) -> Option<Address> {
    parsed_address(signer_text(raw))
}

/// Parses a signer of a certificate: an address, alone or between `Address(` and `)`.
pub fn parse_certificate_signer(raw: &str) -> (r: Option<Address>)
    ensures
        r == certificate_signer(raw@),
{
    let open = "Address(";
    let len: usize = raw.unicode_len();
    let open_len: usize = open.unicode_len();
    if len > open_len && raw.get_char(len - 1) == ')' {
        let start = raw.substring_char(0, open_len);
        assert(start@ =~= raw@.take(open_len as int));
        if start.to_owned() == open.to_owned() {
            return parse_address(raw.substring_char(open_len, len - 1));
        }
    }
    parse_address(raw)
}

/// Certificate entries as mathematical values.
pub open spec fn entry_views(entries: Seq<(String, PQSignature)>) -> Seq<
    (Seq<char>, SignatureView),
> {
    Seq::new(entries.len(), |i: int| (entries[i].0@, entries[i].1@))
}

/// Pairs of texts as mathematical values.
pub open spec fn text_pairs(pairs: Seq<(String, String)>) -> Seq<(Seq<char>, Seq<char>)> {
    Seq::new(pairs.len(), |i: int| (pairs[i].0@, pairs[i].1@))
}

/// The signatures of a table by their signers.
pub open spec fn signature_map(signatures: Map<Address, PQSignature>) -> Map<Address, SignatureView> {
    signatures.map_values(|s: PQSignature| s@)
}

/// The signatures that the first `n` entries of a certificate hold. An entry without a readable
/// signer is passed over; a later entry of the same signer counts.
pub open spec fn entries_map(entries: Seq<(Seq<char>, SignatureView)>, n: nat) -> Map<
    Address,
    SignatureView,
>
    decreases n,
{
    if n == 0 {
        Map::empty()
    } else {
        let before = entries_map(entries, (n - 1) as nat);
        match certificate_signer(entries[n - 1].0) {
            Some(signer) => before.insert(signer, entries[n - 1].1),
            None => before,
        }
    }
}

/// An entry of the older form of certificate, in which every signature is one of Dilithium in
/// hexadecimal digits, in the present form.
pub open spec fn legacy_signature(digits: Seq<char>) -> Option<SignatureView> {
    match hex_decoded(digits) {
        Some(data) => Some(SignatureView { sig_type: SignatureType::Dilithium3, data }),
        None => None,
    }
}

/// The signatures that the first `n` entries of an older certificate hold. An entry without a
/// readable signer or signature is passed over.
pub open spec fn legacy_map(pairs: Seq<(Seq<char>, Seq<char>)>, n: nat) -> Map<
    Address,
    SignatureView,
>
    decreases n,
{
    if n == 0 {
        Map::empty()
    } else {
        let before = legacy_map(pairs, (n - 1) as nat);
        match (certificate_signer(pairs[n - 1].0), legacy_signature(pairs[n - 1].1)) {
            (Some(signer), Some(signature)) => before.insert(signer, signature),
            _ => before,
        }
    }
}

/// The entries of a certificate over some signatures: each signer as text, with its signature.
pub fn encode_commit_certificate(signatures: &Table<Address, PQSignature>) -> (r: Vec<
    (String, PQSignature),
>)
    ensures
        r@.len() == signatures.rows().len(),
        forall|i: int|
            0 <= i < r@.len() ==> (#[trigger] r@[i]).0@ == text::prefixed_hex(
                signatures.rows()[i].0.bytes@,
            ) && r@[i].1@ == signatures.rows()[i].1@,
        entries_map(entry_views(r@), r@.len()) == signature_map(signatures@),
{
    let mut entries: Vec<(String, PQSignature)> = Vec::new();
    let count: usize = signatures.len();
    let ghost rows = signatures.rows();
    let mut i: usize = 0;
    while i < count
        invariant
            i <= count,
            count == rows.len(),
            rows == signatures.rows(),
            entries@.len() == i,
            forall|j: int|
                0 <= j < i ==> (#[trigger] entries@[j]).0@ == text::prefixed_hex(rows[j].0.bytes@)
                    && entries@[j].1@ == rows[j].1@,
        decreases count - i,
    {
        let row = signatures.row(i);
        let mut name = String::new();
        text::push_address(&mut name, &row.0);
        assert(name@ =~= text::prefixed_hex(row.0.bytes@));
        entries.push((name, row.1.duplicate()));
        i += 1;
    }
    proof {
        lemma_entries_of_rows(entry_views(entries@), rows, rows.len());
        assert(rows.take(rows.len() as int) =~= rows);
    }
    entries
}

/// The signatures in the entries of a certificate.
pub fn certificate_signatures(entries: &Vec<(String, PQSignature)>) -> (r: Table<
    Address,
    PQSignature,
>)
    ensures
        signature_map(r@) == entries_map(entry_views(entries@), entries@.len()),
{
    let mut signatures: Table<Address, PQSignature> = Table::new();
    let ghost views = entry_views(entries@);
    let mut i: usize = 0;
    assert(signature_map(signatures@) =~= Map::empty());
    while i < entries.len()
        invariant
            i <= entries@.len(),
            views == entry_views(entries@),
            signature_map(signatures@) == entries_map(views, i as nat),
        decreases entries.len() - i,
    {
        match parse_certificate_signer(entries[i].0.as_str()) {
            Some(signer) => {
                let ghost before = signatures@;
                let signature = entries[i].1.duplicate();
                signatures.insert(signer, signature);
                assert(signature_map(signatures@) =~= signature_map(before).insert(
                    signer,
                    views[i as int].1,
                ));
            },
            None => {},
        }
        i += 1;
    }
    signatures
}

/// The signatures in the entries of an older certificate.
pub fn legacy_signatures(pairs: &Vec<(String, String)>) -> (r: Table<Address, PQSignature>)
    ensures
        signature_map(r@) == legacy_map(text_pairs(pairs@), pairs@.len()),
{
    let mut signatures: Table<Address, PQSignature> = Table::new();
    let ghost views = text_pairs(pairs@);
    let mut i: usize = 0;
    assert(signature_map(signatures@) =~= Map::empty());
    while i < pairs.len()
        invariant
            i <= pairs@.len(),
            views == text_pairs(pairs@),
            signature_map(signatures@) == legacy_map(views, i as nat),
        decreases pairs.len() - i,
    {
        match parse_certificate_signer(pairs[i].0.as_str()) {
            Some(signer) => match decode_hex(pairs[i].1.as_str()) {
                Some(data) => {
                    let ghost before = signatures@;
                    signatures.insert(signer, PQSignature::new(SignatureType::Dilithium3, data));
                    assert(signature_map(signatures@) =~= signature_map(before).insert(
                        signer,
                        SignatureView { sig_type: SignatureType::Dilithium3, data: data@ },
                    ));
                },
                None => {},
            },
            None => {},
        }
        i += 1;
    }
    signatures
}

/// The object of texts that some JSON holds, as `serde_json::from_slice` reads it: its members in
/// the order of their names, or none where the bytes are not such an object.
pub uninterp spec fn json_string_map(bytes: Seq<u8>) -> Option<Seq<(Seq<char>, Seq<char>)>>;

/// `serde_json::from_slice` to an ordered map of texts: a function of the bytes alone. Of a name
/// that occurs twice the last value counts.
#[verifier::external_body]
fn parse_string_map(bytes: &[u8]) -> (r: Option<Vec<(String, String)>>)
    ensures
        match r {
            Some(pairs) => json_string_map(bytes@) == Some(text_pairs(pairs@)),
            None => json_string_map(bytes@) is None,
        },
{
    match serde_json::from_slice::<BTreeMap<String, String>>(bytes) {
        Ok(map) => Some(map.into_iter().collect()),
        Err(_) => None,
    }
}

/// The signatures that a certificate holds: those of its entries in the present form, where it has
/// that form, else those of the older one.
pub open spec fn decoded_certificate(
    entries: Option<Seq<(Seq<char>, SignatureView)>>,
    bytes: Seq<u8>,
) -> Option<Map<Address, SignatureView>> {
    match entries {
        Some(entries) => Some(entries_map(entries, entries.len())),
        None => match json_string_map(bytes) {
            Some(pairs) => Some(legacy_map(pairs, pairs.len())),
            None => None,
        },
    }
}

/// Decodes a certificate.
///
/// `entries` are those that the bytes hold in the present form, if they have that form. Else the
/// bytes are read in the older form, an object that gives each signer's signature as text.
pub fn decode_commit_certificate(entries: &Option<Vec<(String, PQSignature)>>, bytes: &[u8]) -> (r:
    Option<Table<Address, PQSignature>>)
    ensures
        ({
            let views = match *entries {
                Some(entries) => Some(entry_views(entries@)),
                None => None,
            };
            match r {
                Some(signatures) => decoded_certificate(views, bytes@) == Some(
                    signature_map(signatures@),
                ),
                None => decoded_certificate(views, bytes@) is None,
            }
        }),
{
    match entries {
        Some(entries) => Some(certificate_signatures(entries)),
        None => match parse_string_map(bytes) {
            Some(pairs) => Some(legacy_signatures(&pairs)),
            None => None,
        },
    }
}

proof fn lemma_hex_bytes_len(bytes: Seq<u8>)
    ensures
        text::hex_bytes(bytes).len() == 2 * bytes.len(),
    decreases bytes.len(),
{
    if bytes.len() > 0 {
        lemma_hex_bytes_len(bytes.drop_last());
    }
}

/// Bytes written in hexadecimal digits are read back as they were.
pub proof fn law_hex_round_trip(bytes: Seq<u8>)
    ensures
        hex_decoded(text::hex_bytes(bytes)) == Some(bytes),
    decreases bytes.len(),
{
    let shown = text::hex_bytes(bytes);
    if bytes.len() > 0 {
        law_hex_round_trip(bytes.drop_last());
        lemma_hex_bytes_len(bytes);
        lemma_hex_bytes_len(bytes.drop_last());
        let n = shown.len();
        let last = bytes.last();
        assert(shown.take(n - 2) =~= text::hex_bytes(bytes.drop_last()));
        assert(shown[n - 2] == text::digit_char((last / 16) as nat));
        assert(shown[n - 1] == text::digit_char((last % 16) as nat));
        assert(text::digit_value(text::digit_char((last / 16) as nat)) == Some((last / 16) as nat));
        assert(text::digit_value(text::digit_char((last % 16) as nat)) == Some((last % 16) as nat));
        assert(16 * (last / 16) + last % 16 == last);
        assert(bytes.drop_last().push(last) =~= bytes);
    }
}

/// An address written as text is read back as it was, alone and as the signer of a certificate.
pub proof fn law_address_round_trip(address: Address)
    ensures
        parsed_address(text::prefixed_hex(address.bytes@)) == Some(address),
        certificate_signer(text::prefixed_hex(address.bytes@)) == Some(address),
{
    let shown = text::prefixed_hex(address.bytes@);
    reveal_strlit("0x");
    reveal_strlit("Address(");
    law_hex_round_trip(address.bytes@);
    lemma_hex_bytes_len(address.bytes@);
    assert(shown.skip(2) =~= text::hex_bytes(address.bytes@));
    lemma_address_of(address);
    assert(shown[0] == '0');
    assert("Address("@[0] == 'A');
    assert(signer_text(shown) == shown) by {
        if shown.len() > "Address("@.len() && shown.take("Address("@.len() as int) == "Address("@ {
            assert(shown.take("Address("@.len() as int)[0] == '0');
        }
    }
}

/// Reading the entries that were written for some rows gives the rows back.
proof fn lemma_entries_of_rows(
    entries: Seq<(Seq<char>, SignatureView)>,
    rows: Seq<(Address, PQSignature)>,
    n: nat,
)
    requires
        n <= rows.len(),
        entries.len() == rows.len(),
        forall|i: int|
            0 <= i < rows.len() ==> (#[trigger] entries[i]).0 == text::prefixed_hex(
                rows[i].0.bytes@,
            ) && entries[i].1 == rows[i].1@,
    ensures
        entries_map(entries, n) == signature_map(crate::table::rows_map(rows.take(n as int))),
    decreases n,
{
    if n == 0 {
        assert(signature_map(crate::table::rows_map(rows.take(0))) =~= Map::empty());
    } else {
        lemma_entries_of_rows(entries, rows, (n - 1) as nat);
        law_address_round_trip(rows[n - 1].0);
        assert(entries[n - 1].0 == text::prefixed_hex(rows[n - 1].0.bytes@));
        let part = rows.take(n as int);
        assert(part.drop_last() =~= rows.take(n - 1));
        assert(part.last() == rows[n - 1]);
        assert(signature_map(crate::table::rows_map(part)) =~= signature_map(
            crate::table::rows_map(rows.take(n - 1)),
        ).insert(rows[n - 1].0, rows[n - 1].1@));
    }
}

/// A certificate holds the signature of every signer that can be read from one of its entries, the one
/// of the last such entry, and no other signature.
pub proof fn law_last_entry_of_a_signer_counts(
    entries: Seq<(Seq<char>, SignatureView)>,
    n: nat,
    signer: Address,
)
    requires
        n <= entries.len(),
    ensures
        entries_map(entries, n).contains_key(signer) <==> exists|i: int|
            0 <= i < n && certificate_signer((#[trigger] entries[i]).0) == Some(signer),
        forall|i: int|
            0 <= i < n && certificate_signer((#[trigger] entries[i]).0) == Some(signer) && (forall|
                j: int,
            |
                i < j < n ==> certificate_signer((#[trigger] entries[j]).0) != Some(signer))
                ==> entries_map(entries, n)[signer] == entries[i].1,
    decreases n,
{
    if n > 0 {
        law_last_entry_of_a_signer_counts(entries, (n - 1) as nat, signer);
        let last = entries[n - 1];
        if certificate_signer(last.0) != Some(signer) && entries_map(entries, (n - 1) as nat).contains_key(
            signer,
        ) {
            let i = choose|i: int|
                0 <= i < n - 1 && certificate_signer((#[trigger] entries[i]).0) == Some(signer);
            assert(certificate_signer(entries[i].0) == Some(signer));
        }
    }
}

/// Whether an entry of an older certificate holds a signature of a signer.
pub open spec fn holds_signature_of(pair: (Seq<char>, Seq<char>), signer: Address) -> bool {
    certificate_signer(pair.0) == Some(signer) && hex_decoded(pair.1) is Some
}

/// An older certificate holds, for every signer with an entry of which both parts can be read, the
/// bytes of the last such entry as a Dilithium signature, and no other signature.
pub proof fn law_last_older_entry_counts(pairs: Seq<(Seq<char>, Seq<char>)>, n: nat, signer: Address)
    requires
        n <= pairs.len(),
    ensures
        legacy_map(pairs, n).contains_key(signer) <==> exists|i: int|
            0 <= i < n && holds_signature_of(#[trigger] pairs[i], signer),
        forall|i: int|
            0 <= i < n && holds_signature_of(#[trigger] pairs[i], signer) && (forall|j: int|
                i < j < n ==> !holds_signature_of(#[trigger] pairs[j], signer)) ==> legacy_map(
                pairs,
                n,
            )[signer].data == hex_decoded(pairs[i].1)->0 && legacy_map(pairs, n)[signer].sig_type
                == SignatureType::Dilithium3,
    decreases n,
{
    if n > 0 {
        law_last_older_entry_counts(pairs, (n - 1) as nat, signer);
        let last = pairs[n - 1];
        if !holds_signature_of(last, signer) && legacy_map(pairs, (n - 1) as nat).contains_key(
            signer,
        ) {
            let i = choose|i: int| 0 <= i < n - 1 && holds_signature_of(#[trigger] pairs[i], signer);
            assert(holds_signature_of(pairs[i], signer));
        }
    }
}

/// A signer's text that stands between `Address(` and `)` is read without them, and any other text as
/// it is.
pub proof fn law_wrapped_signers(inner: Seq<char>, raw: Seq<char>)
    ensures
        ({
            let open = seq!['A', 'd', 'd', 'r', 'e', 's', 's', '('];
            &&& certificate_signer(open + inner.push(')')) == parsed_address(inner)
            &&& raw.len() < 9 || raw[raw.len() - 1] != ')' || (exists|i: int|
                0 <= i < 8 && #[trigger] raw[i] != open[i]) ==> certificate_signer(raw)
                == parsed_address(raw)
        }),
{
    reveal_strlit("Address(");
    let open = seq!['A', 'd', 'd', 'r', 'e', 's', 's', '('];
    assert("Address("@ =~= open);
    let wrapped = open + inner.push(')');
    assert(wrapped.take(8) =~= open);
    assert(wrapped.subrange(8, wrapped.len() - 1) =~= inner);
    assert(wrapped.last() == ')');
    if raw.len() > 8 && raw.take(8) == open {
        assert forall|i: int| 0 <= i < 8 implies #[trigger] raw[i] == open[i] by {
            assert(raw.take(8)[i] == raw[i]);
        }
    }
}

proof fn lemma_hex_decoded(digits: Seq<char>)
    ensures
        hex_decoded(digits) is Some <==> digits.len() % 2 == 0 && forall|i: int|
            0 <= i < digits.len() ==> text::digit_value(#[trigger] digits[i]) is Some,
        hex_decoded(digits) matches Some(bytes) ==> digits.len() == 2 * bytes.len(),
    decreases digits.len(),
{
    let n = digits.len();
    if n >= 2 {
        let init = digits.take(n - 2);
        lemma_hex_decoded(init);
        assert forall|i: int| 0 <= i < n - 2 implies #[trigger] init[i] == digits[i] by {}
        if hex_decoded(digits) is Some {
            assert forall|i: int| 0 <= i < n implies text::digit_value(
                #[trigger] digits[i],
            ) is Some by {
                if i < n - 2 {
                    assert(init[i] == digits[i]);
                }
            }
        }
        if forall|i: int| 0 <= i < n ==> text::digit_value(#[trigger] digits[i]) is Some {
            assert forall|i: int| 0 <= i < init.len() implies text::digit_value(
                #[trigger] init[i],
            ) is Some by {
                assert(init[i] == digits[i]);
            }
            assert(text::digit_value(digits[n - 2]) is Some);
            assert(text::digit_value(digits[n - 1]) is Some);
        }
    } else if n == 1 {
        assert(hex_decoded(digits) is None);
    }
}

/// A text is an address exactly if it is `0x` and sixty-four hexadecimal digits.
pub proof fn law_texts_that_are_addresses(shown: Seq<char>)
    ensures
        parsed_address(shown) is Some <==> {
            &&& shown.len() == 66
            &&& shown[0] == '0'
            &&& shown[1] == 'x'
            &&& forall|i: int|
                2 <= i < 66 ==> text::digit_value(#[trigger] shown[i]) is Some
        },
{
    if shown.len() >= 2 {
        let digits = shown.skip(2);
        lemma_hex_decoded(digits);
        if hex_decoded(digits) is Some {
            assert forall|i: int| 2 <= i < shown.len() implies text::digit_value(
                #[trigger] shown[i],
            ) is Some by {
                assert(digits[i - 2] == shown[i]);
            }
        }
        if shown.len() == 66 && (forall|i: int|
            2 <= i < 66 ==> text::digit_value(#[trigger] shown[i]) is Some) {
            assert forall|i: int| 0 <= i < digits.len() implies text::digit_value(
                #[trigger] digits[i],
            ) is Some by {
                assert(digits[i] == shown[i + 2]);
            }
        }
    }
}

/// A certificate is read in the present form where it has that form, whatever its bytes hold in the
/// older one, and else in the older one; where it has neither it holds nothing.
pub proof fn law_present_form_comes_first(
    entries: Option<Seq<(Seq<char>, SignatureView)>>,
    bytes: Seq<u8>,
)
    ensures
        entries matches Some(present) ==> decoded_certificate(entries, bytes) == Some(
            entries_map(present, present.len()),
        ),
        entries is None ==> (decoded_certificate(entries, bytes) is Some <==> json_string_map(
            bytes,
        ) is Some),
        entries is None ==> (json_string_map(bytes) matches Some(older) ==> decoded_certificate(
            entries,
            bytes,
        ) == Some(legacy_map(older, older.len()))),
{
}

/// The signatures that a certificate was made over are read back from it, each under its signer.
pub proof fn law_certificates_are_read_back(
    signatures: Table<Address, PQSignature>,
    entries: Vec<(String, PQSignature)>,
    read: Table<Address, PQSignature>,
    signer: Address,
)
    requires
        call_ensures(encode_commit_certificate, (&signatures,), entries),
        call_ensures(certificate_signatures, (&entries,), read),
    ensures
        read@.contains_key(signer) <==> signatures@.contains_key(signer),
        signatures@.contains_key(signer) ==> read@[signer]@ == signatures@[signer]@,
        entries@.len() == signatures.rows().len(),
{
    assert(signature_map(read@).contains_key(signer) <==> signature_map(
        signatures@,
    ).contains_key(signer));
    assert(signature_map(read@)[signer] == signature_map(signatures@)[signer]);
}

} // verus!
