//! What is reported of blocks, and in which form.

use super::blocks::first_96;
use crate::block::{
    empty_body_facts, hex_digit, hex_digits, is_reported, probe, DecodeError, Findings,
    InspectWarning, Inspection, ParsedBodyInfo, WarnBudgets,
    BODY_PARSE_FAIL_WARN_BUDGET, SHAPE_MISMATCH_WARN_BUDGET,
};
use vstd::prelude::*;

verus! {

/// The character of a hexadecimal digit: `0` to `9`, then `a` to `f`.
pub open spec fn hex_char(d: int) -> char {
    if d < 10 {
        (0x30 + d) as char
    } else {
        (0x61 + d - 10) as char
    }
}

/// A byte is written as two hexadecimal digits, the high one first, and bytes one
/// after the other.
pub proof fn law_bytes_are_written_as_two_digits(bytes: Seq<u8>, k: int)
    requires
        0 <= k < bytes.len(),
    ensures
        hex_digits(bytes).len() == 2 * bytes.len(),
        hex_digits(bytes)[2 * k] == hex_char(bytes[k] as int / 16),
        hex_digits(bytes)[2 * k + 1] == hex_char(bytes[k] as int % 16),
    decreases bytes.len(),
{
    lemma_digit(bytes.last() as int / 16);
    lemma_digit(bytes.last() as int % 16);
    let shorter = bytes.drop_last();
    if shorter.len() > 0 {
        let j = if k < shorter.len() {
            k
        } else {
            0
        };
        law_bytes_are_written_as_two_digits(shorter, j);
    }
    assert(hex_digits(shorter).len() == 2 * shorter.len());
}

/// The digits in order.
proof fn lemma_digit(d: int)
    requires
        0 <= d < 16,
    ensures
        hex_digit(d) == hex_char(d),
{
    reveal_strlit("0123456789abcdef");
}

/// What is captured of a field is its first 96 bytes, or all of it.
pub proof fn law_capture_is_the_beginning(field: Seq<u8>)
    ensures
        probe(field) == first_96(field),
{
    assert(probe(field) =~= first_96(field));
}

/// How a captured field is shown: its first 96 bytes in hexadecimal, and `none`
/// where there is none.
pub open spec fn shown(field: Option<Seq<u8>>) -> Seq<char> {
    match field {
        Some(bytes) => hex_digits(first_96(bytes)),
        None => "none"@,
    }
}

/// A block in which a trailing field has an unknown shape is reported while the
/// budget for that lasts, with its number of fields and what is shown of each of
/// the two trailing fields; other blocks are not. Each report takes one from that
/// budget, and nothing from the other.
pub proof fn law_unknown_shapes_are_reported(
    found: Findings,
    raw: Seq<u8>,
    before: WarnBudgets,
    after: WarnBudgets,
    report: Option<InspectWarning>,
)
    requires
        is_reported(Ok(found), raw, before, after, report),
    ensures
        report is Some <==> before.shape_mismatch.remaining() > 0 && (found.cert_field is Some
            || found.tx_refs_field is Some),
        after.shape_mismatch.remaining() == before.shape_mismatch.remaining() - (if report is Some {
            1int
        } else {
            0
        }),
        after.parse_fail.remaining() == before.parse_fail.remaining(),
        report matches Some(warning) ==> {
            &&& warning is ShapeMismatch
            &&& warning->field_count == found.facts.field_count
            &&& warning->cert_field_hex@ == shown(found.cert_field)
            &&& warning->tx_refs_field_hex@ == shown(found.tx_refs_field)
        },
{
    if let Some(bytes) = found.cert_field {
        law_capture_is_the_beginning(bytes);
    }
    if let Some(bytes) = found.tx_refs_field {
        law_capture_is_the_beginning(bytes);
    }
}

/// A block that cannot be read is reported while the budget for that lasts, with
/// its size, the error, and its first 256 bytes in hexadecimal. Each report takes
/// one from that budget, and nothing from the other.
pub proof fn law_unreadable_blocks_are_reported(
    error: DecodeError,
    raw: Seq<u8>,
    before: WarnBudgets,
    after: WarnBudgets,
    report: Option<InspectWarning>,
)
    requires
        is_reported(Err(error), raw, before, after, report),
    ensures
        report is Some <==> before.parse_fail.remaining() > 0,
        after.parse_fail.remaining() == before.parse_fail.remaining() - (if report is Some {
            1int
        } else {
            0
        }),
        after.shape_mismatch.remaining() == before.shape_mismatch.remaining(),
        report matches Some(warning) ==> {
            &&& warning is ParseFailed
            &&& warning->body_bytes == raw.len()
            &&& warning->error == error
            &&& warning->raw_prefix_hex@ == hex_digits(
                raw.subrange(
                    0,
                    if raw.len() <= 256 {
                        raw.len() as int
                    } else {
                        256
                    },
                ),
            )
        },
{
    if raw.len() <= 256 {
        assert(raw.subrange(0, raw.len() as int) =~= raw);
    } else {
        assert(raw.subrange(0, 256) =~= raw.take(256));
    }
}

/// What an inspection gives says what was found: the same counts, the certificate
/// by its slot and hash, and the captured bytes.
pub proof fn law_inspection_says_what_was_found(given: Inspection)
    ensures
        given@.facts == given.info@,
        given.info@.tx_count == given.info.tx_count,
        given.info@.field_count == given.info.field_count,
        given.info@.tx_references_count == given.info.tx_references_count,
        given.info@.leios_cert is Some <==> given.info.leios_cert is Some,
        given.info.leios_cert matches Some(cert) ==> given.info@.leios_cert == Some(
            (cert.eb_slot, cert.eb_hash@),
        ),
        given@.cert_field is Some <==> given.cert_field is Some,
        given.cert_field matches Some(bytes) ==> given@.cert_field == Some(bytes@),
        given@.tx_refs_field is Some <==> given.tx_refs_field is Some,
        given.tx_refs_field matches Some(bytes) ==> given@.tx_refs_field == Some(bytes@),
{
}

/// A block that cannot be read is given as zeros and nothing else.
pub proof fn law_nothing_is_given_of_an_unreadable_block(info: ParsedBodyInfo)
    requires
        info@ == empty_body_facts(0),
    ensures
        info.tx_count == 0,
        info.field_count == 0,
        info.leios_cert is None,
        info.tx_references_count is None,
{
}

/// Five reports of either kind are made.
pub proof fn law_five_reports_of_either_kind()
    ensures
        SHAPE_MISMATCH_WARN_BUDGET == 5,
        BODY_PARSE_FAIL_WARN_BUDGET == 5,
{
}

} // verus!
