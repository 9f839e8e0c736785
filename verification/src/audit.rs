//! Audits of an answer: whether one asks for a revision, and how two of them are put on record.

use vstd::prelude::*;
use vstd::string::*;

use crate::json;
use crate::json::Json;
use crate::text;
use crate::text::Text;

verus! {

// ---------------------------------------------------------------------------------------------
// Verdicts

/// The kinds of objections that an audit lists.
pub open spec fn objection_kinds() -> Seq<Text> {
    seq![
        "unsupported_claims"@,
        "relationship_errors"@,
        "scope_errors"@,
        "polarity_errors"@,
        "insufficient_evidence_overreach"@,
    ]
}

/// The verdict of an audit, in lower case; empty where it has none.
pub open spec fn verdict(audit: Json) -> Text {
    match audit.field("verdict"@) {
        Some(value) => match value.text() {
            Some(s) => text::lower_ascii(s),
            None => Seq::empty(),
        },
        None => Seq::empty(),
    }
}

/// Whether an audit asks for a revision: by its verdict, or by listing an objection. What is no JSON
/// asks for none.
pub open spec fn asks_revision(audit: Option<Json>) -> bool {
    match audit {
        Some(value) => {
            ||| verdict(value) == "warning"@
            ||| verdict(value) == "fail"@
            ||| exists|i: int|
                0 <= i < objection_kinds().len() && json::listed(
                    audit,
                    #[trigger] objection_kinds()[i],
                ).len() > 0
        },
        None => false,
    }
}

fn read_verdict(audit: &Json) -> (r: String)
    ensures
        r@ == verdict(*audit),
{
    match audit.get("verdict") {
        Some(value) => match value.as_str() {
            Some(s) => text::to_lower_ascii(s),
            None => String::new(),
        },
        None => String::new(),
    }
}

fn lists_some(audit: &Json, key: &str) -> (r: bool)
    ensures
        r == (json::listed(Some(*audit), key@).len() > 0),
{
    match audit.get(key) {
        Some(list) => match list.as_array() {
            Some(items) => items.len() > 0,
            None => false,
        },
        None => false,
    }
}

/// Whether an audit asks for a revision.
pub fn revision_needed(audit: &Option<Json>) -> (r: bool)
    ensures
        r == asks_revision(*audit),
{
    match audit {
        Some(value) => {
            let word = read_verdict(value);
            if text::same_text(word.as_str(), "warning") || text::same_text(word.as_str(), "fail") {
                return true;
            }
            let keys: Vec<&'static str> = vec![
                "unsupported_claims",
                "relationship_errors",
                "scope_errors",
                "polarity_errors",
                "insufficient_evidence_overreach",
            ];
            let ghost all = objection_kinds();
            for i in 0..keys.len()
                invariant
                    all == objection_kinds(),
                    *audit == Some(*value),
                    keys@.len() == all.len(),
                    forall|k: int| 0 <= k < all.len() ==> #[trigger] keys@[k]@ == all[k],
                    verdict(*value) != "warning"@ && verdict(*value) != "fail"@,
                    forall|k: int|
                        0 <= k < i ==> json::listed(*audit, #[trigger] all[k]).len() == 0,
            {
                if lists_some(value, keys[i]) {
                    assert(json::listed(*audit, all[i as int]).len() > 0);
                    return true;
                }
            }
            false
        },
        None => false,
    }
}

/// Whether the text of an audit asks for a revision.
pub fn audit_needs_revision(audit: &str) -> (r: bool)
    ensures
        r == asks_revision(json::parsed_json(audit@)),
{
    let value = json::parse_json(audit);
    revision_needed(&value)
}

// ---------------------------------------------------------------------------------------------
// Records

/// An audit as it is put on record: as JSON, or as a raw text where it is none.
pub open spec fn entry_of(s: Text, canonical: Option<Text>) -> Text {
    match canonical {
        Some(written) => written,
        None => text::concat(seq!["{\"raw\":"@, json::quoted(s), "}"@]),
    }
}

/// The entry of a second audit that could not be made.
pub const FAILED_AUDIT: &'static str = "{\"error\":\"re-audit failed\"}";

/// The record of the audits before and after a revision.
pub open spec fn audit_record(first: Text, last: Text) -> Text {
    text::concat(
        seq!["{\"final\":"@, last, ",\"initial\":"@, first, ",\"revision_applied\":true}"@],
    )
}

/// An audit as it is put on record, given how it reads as JSON.
pub fn audit_entry(s: &str, canonical: &Option<String>) -> (r: String)
    ensures
        r@ == entry_of(
            s@,
            match *canonical {
                Some(written) => Some(written@),
                None => None,
            },
        ),
{
    match canonical {
        Some(written) => written.clone(),
        None => {
            let inner = json::quote_text(s);
            let parts: Vec<&str> = vec!["{\"raw\":", inner.as_str(), "}"];
            assert(text::views(parts@) =~= seq!["{\"raw\":"@, json::quoted(s@), "}"@]);
            text::concat_all(&parts)
        },
    }
}

/// The record of two entries.
pub fn frame_audits(first: &str, last: &str) -> (r: String)
    ensures
        r@ == audit_record(first@, last@),
{
    let parts: Vec<&str> = vec![
        "{\"final\":",
        last,
        ",\"initial\":",
        first,
        ",\"revision_applied\":true}",
    ];
    assert(text::views(parts@) =~= seq![
        "{\"final\":"@,
        last@,
        ",\"initial\":"@,
        first@,
        ",\"revision_applied\":true}"@,
    ]);
    text::concat_all(&parts)
}

/// The entry of a second audit.
pub open spec fn last_entry(last: Option<Text>) -> Text {
    match last {
        Some(s) => entry_of(s, json::canonical_json(s)),
        None => FAILED_AUDIT@,
    }
}

/// The text of an audit that was made.
pub open spec fn audit_text(audit: Option<&str>) -> Option<Text> {
    match audit {
        Some(s) => Some(s@),
        None => None,
    }
}

/// The record of the audits before and after a revision, the second of which may have failed.
pub fn combine_audit_json(initial: &str, final_audit: Option<&str>) -> (r: String)
    ensures
        r@ == audit_record(
            entry_of(initial@, json::canonical_json(initial@)),
            last_entry(audit_text(final_audit)),
        ),
{
    let written = json::rewrite_json(initial);
    let first = audit_entry(initial, &written);
    let last = match final_audit {
        Some(s) => {
            let rewritten = json::rewrite_json(s);
            audit_entry(s, &rewritten)
        },
        None => text::copy_text(FAILED_AUDIT),
    };
    frame_audits(first.as_str(), last.as_str())
}

// ---------------------------------------------------------------------------------------------
// Laws

/// An audit asks for a revision where it lists an objection of any kind, or where its verdict is a
/// warning or a failure. An audit that passes and lists nothing asks for none, and neither does what is
/// no audit.
pub proof fn law_objections(audit: Json)
    ensures
        json::listed(Some(audit), "unsupported_claims"@).len() > 0 ==> asks_revision(Some(audit)),
        json::listed(Some(audit), "relationship_errors"@).len() > 0 ==> asks_revision(Some(audit)),
        json::listed(Some(audit), "scope_errors"@).len() > 0 ==> asks_revision(Some(audit)),
        json::listed(Some(audit), "polarity_errors"@).len() > 0 ==> asks_revision(Some(audit)),
        json::listed(Some(audit), "insufficient_evidence_overreach"@).len() > 0 ==> asks_revision(
            Some(audit),
        ),
        says_verdict(audit, "warning"@) || says_verdict(audit, "fail"@) ==> asks_revision(Some(audit)),
        asks_revision(Some(audit)) ==> says_verdict(audit, "warning"@) || says_verdict(audit, "fail"@)
            || json::listed(Some(audit), "unsupported_claims"@).len() > 0 || json::listed(
            Some(audit),
            "relationship_errors"@,
        ).len() > 0 || json::listed(Some(audit), "scope_errors"@).len() > 0 || json::listed(
            Some(audit),
            "polarity_errors"@,
        ).len() > 0 || json::listed(Some(audit), "insufficient_evidence_overreach"@).len() > 0,
        !asks_revision(None),
{
    reveal_strlit("warning");
    reveal_strlit("fail");
    let all = objection_kinds();
    let audit_given = Some(audit);
    assert(json::listed(audit_given, all[0]) == json::listed(audit_given, "unsupported_claims"@));
    assert(json::listed(audit_given, all[1]) == json::listed(audit_given, "relationship_errors"@));
    assert(json::listed(audit_given, all[2]) == json::listed(audit_given, "scope_errors"@));
    assert(json::listed(audit_given, all[3]) == json::listed(audit_given, "polarity_errors"@));
    assert(json::listed(audit_given, all[4]) == json::listed(
        audit_given,
        "insufficient_evidence_overreach"@,
    ));
    if verdict(audit) == "warning"@ {
        assert(verdict(audit).len() > 0);
        assert(says_verdict(audit, "warning"@));
    } else if verdict(audit) == "fail"@ {
        assert(verdict(audit).len() > 0);
        assert(says_verdict(audit, "fail"@));
    } else if asks_revision(audit_given) {
        let i = choose|i: int| 0 <= i < all.len() && json::listed(audit_given, #[trigger] all[i]).len() > 0;
        assert(i == 0 || i == 1 || i == 2 || i == 3 || i == 4);
    }
}

/// Whether the verdict of an audit is a word, in capital letters or small ones.
pub open spec fn says_verdict(audit: Json, word: Text) -> bool {
    match audit.field("verdict"@) {
        Some(value) => match value.text() {
            Some(s) => text::lower_ascii(s) == word,
            None => false,
        },
        None => false,
    }
}

/// The record of two audits holds both, the last one as the final one and the first one as the initial
/// one, and says that the answer was revised.
pub proof fn law_record_holds_audits(first: Text, last: Text)
    ensures
        text::occurs_at("{\"final\":"@ + last + ",\"initial\":"@, audit_record(first, last), 0),
        text::occurs_in(
            ",\"initial\":"@ + first + ",\"revision_applied\":true}"@,
            audit_record(first, last),
        ),
{
    let parts = seq!["{\"final\":"@, last, ",\"initial\":"@, first, ",\"revision_applied\":true}"@];
    text::lemma_concat_begins(parts);
    text::lemma_concat_holds_three(parts, 2);
}

/// An audit that is JSON stands in the record as JSON, and any other one as a quoted text; one that
/// failed stands there as an error.
pub proof fn law_entries(s: Text)
    ensures
        match json::canonical_json(s) {
            Some(written) => last_entry(Some(s)) == written,
            None => text::occurs_in("{\"raw\":"@ + json::quoted(s) + "}"@, last_entry(Some(s))),
        },
        last_entry(None) == "{\"error\":\"re-audit failed\"}"@,
{
    let parts = seq!["{\"raw\":"@, json::quoted(s), "}"@];
    text::lemma_concat_holds_three(parts, 0);
}

} // verus!
