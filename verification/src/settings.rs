//! Settings, and what is stored of them.

use vstd::prelude::*;
use vstd::string::*;

use crate::text;
use crate::text::Text;

verus! {

pub const DEFAULT_MODEL: &'static str = "deepseek-v4-flash";

pub const DEFAULT_EFFORT: &'static str = "high";

pub const DEFAULT_CONTEXT_CHARS: usize = 12_000;

pub const DEFAULT_BATCH_CHARS: usize = 6_000;

/// The range of the length of a context, in characters.
pub const MIN_CONTEXT_CHARS: usize = 3_000;

pub const MAX_CONTEXT_CHARS: usize = 80_000;

/// The range of the length of a batch, in characters.
pub const MIN_BATCH_CHARS: usize = 2_000;

pub const MAX_BATCH_CHARS: usize = 16_000;

/// The settings, but for the temperature.
pub struct Settings {
    pub source_path: Option<String>,
    pub model: String,
    pub thinking_enabled: bool,
    pub reasoning_effort: String,
    pub max_context_chars: usize,
    pub comprehensive_batch_chars: usize,
    pub api_key_saved: bool,
    pub api_key_storage: String,
    pub api_key: Option<String>,
}

impl Settings {
    /// Whether everything that a user does not choose by hand has its default.
    pub open spec fn has_simple_defaults(self) -> bool {
        &&& self.model@ == DEFAULT_MODEL@
        &&& !self.thinking_enabled
        &&& self.reasoning_effort@ == DEFAULT_EFFORT@
        &&& self.max_context_chars == DEFAULT_CONTEXT_CHARS
        &&& self.comprehensive_batch_chars == DEFAULT_BATCH_CHARS
    }
}

impl Default for Settings {
    fn default() -> (r: Self)
        ensures
            r.has_simple_defaults(),
            r.source_path is None,
            !r.api_key_saved,
            r.api_key_storage@ == "none"@,
            r.api_key is None,
    {
        Settings {
            source_path: None,
            model: text::copy_text(DEFAULT_MODEL),
            thinking_enabled: false,
            reasoning_effort: text::copy_text(DEFAULT_EFFORT),
            max_context_chars: DEFAULT_CONTEXT_CHARS,
            comprehensive_batch_chars: DEFAULT_BATCH_CHARS,
            api_key_saved: false,
            api_key_storage: text::copy_text("none"),
            api_key: None,
        }
    }
}

/// Sets everything to its default that a user does not choose by hand.
pub fn apply_simple_defaults(settings: &mut Settings)
    ensures
        final(settings).has_simple_defaults(),
        final(settings).source_path == old(settings).source_path,
        final(settings).api_key_saved == old(settings).api_key_saved,
        final(settings).api_key_storage == old(settings).api_key_storage,
        final(settings).api_key == old(settings).api_key,
{
    settings.model = text::copy_text(DEFAULT_MODEL);
    settings.thinking_enabled = false;
    settings.reasoning_effort = text::copy_text(DEFAULT_EFFORT);
    settings.max_context_chars = DEFAULT_CONTEXT_CHARS;
    settings.comprehensive_batch_chars = DEFAULT_BATCH_CHARS;
}

// ---------------------------------------------------------------------------------------------
// The key to the language model

/// The text of an optional string.
pub open spec fn opt_text(s: Option<String>) -> Option<Text> {
    match s {
        Some(s) => Some(s@),
        None => None,
    }
}

/// Whether there is a text that is not blank.
pub open spec fn is_given(s: Option<Text>) -> bool {
    match s {
        Some(s) => !text::is_blank(s),
        None => false,
    }
}

/// The key that is used and where it is kept: the one of the keychain before the one in plain text.
pub open spec fn chosen_key(keychain: Option<Text>, plain: Option<Text>) -> (Option<Text>, Text) {
    if is_given(keychain) {
        (keychain, "os-keychain"@)
    } else if is_given(plain) {
        (plain, "sqlite-plaintext-fallback"@)
    } else {
        (None, "none"@)
    }
}

fn given(s: &Option<String>) -> (r: bool)
    ensures
        r == is_given(opt_text(*s)),
{
    match s {
        Some(s) => !text::blank(s.as_str()),
        None => false,
    }
}

/// The key that is used and where it is kept, given what the keychain and the database hold.
pub fn load_api_key(keychain: Option<String>, plain: Option<String>) -> (r: (Option<String>, String))
    ensures
        opt_text(r.0) == chosen_key(opt_text(keychain), opt_text(plain)).0,
        r.1@ == chosen_key(opt_text(keychain), opt_text(plain)).1,
{
    if given(&keychain) {
        (keychain, text::copy_text("os-keychain"))
    } else if given(&plain) {
        (plain, text::copy_text("sqlite-plaintext-fallback"))
    } else {
        (None, text::copy_text("none"))
    }
}

/// A change of a stored setting.
pub enum SettingChange {
    Store(&'static str, String),
    Delete(&'static str),
}

/// The name of a setting and its new value; none where it is deleted.
pub open spec fn change_of(change: SettingChange) -> (Text, Option<Text>) {
    match change {
        SettingChange::Store(name, value) => (name@, Some(value@)),
        SettingChange::Delete(name) => (name@, None),
    }
}

/// The names and new values of some settings.
pub open spec fn changes_of(changes: Seq<SettingChange>) -> Seq<(Text, Option<Text>)> {
    Seq::new(changes.len(), |i: int| change_of(changes[i]))
}

/// The changes for a key that the keychain took: nothing of it stays in the database.
pub open spec fn kept_in_keychain() -> Seq<(Text, Option<Text>)> {
    seq![
        ("api_key_plaintext"@, None::<Text>),
        ("api_key_keychain_error"@, None::<Text>),
        ("api_key_storage"@, Some("os-keychain"@)),
    ]
}

/// The changes for a key that the keychain did not take: it stays in the database, with the error.
pub open spec fn kept_in_database(key: Text, error: Text) -> Seq<(Text, Option<Text>)> {
    seq![
        ("api_key_plaintext"@, Some(key)),
        ("api_key_storage"@, Some("sqlite-plaintext-fallback"@)),
        ("api_key_keychain_error"@, Some(error)),
    ]
}

/// The changes by which a key is forgotten.
pub open spec fn forgotten() -> Seq<(Text, Option<Text>)> {
    seq![
        ("api_key_plaintext"@, None::<Text>),
        ("api_key_keychain_error"@, None::<Text>),
        ("api_key_storage"@, Some("none"@)),
    ]
}

/// Stored settings after some changes.
pub open spec fn applied(
    stored: Map<Text, Text>,
    changes: Seq<(Text, Option<Text>)>,
) -> Map<Text, Text>
    decreases changes.len(),
{
    if changes.len() == 0 {
        stored
    } else {
        let before = applied(stored, changes.drop_last());
        match changes.last().1 {
            Some(value) => before.insert(changes.last().0, value),
            None => before.remove(changes.last().0),
        }
    }
}

/// The key that stored settings hold in plain text.
pub open spec fn plain_key(stored: Map<Text, Text>) -> Option<Text> {
    if stored.dom().contains("api_key_plaintext"@) {
        Some(stored["api_key_plaintext"@])
    } else {
        None
    }
}

/// The changes that follow the attempt to put a key into the keychain: where it succeeded, nothing of
/// the key stays in the database; where it failed, the key is kept there, with the error.
pub fn save_api_key(attempt: &Result<(), String>, api_key: &str) -> (r: (
    Vec<SettingChange>,
    &'static str,
))
    ensures
        match *attempt {
            Ok(_) => {
                &&& changes_of(r.0@) == kept_in_keychain()
                &&& r.1@ == "os-keychain"@
            },
            Err(error) => {
                &&& changes_of(r.0@) == kept_in_database(api_key@, error@)
                &&& r.1@ == "sqlite-plaintext-fallback"@
            },
        },
{
    let mut changes: Vec<SettingChange> = Vec::new();
    match attempt {
        Ok(_) => {
            changes.push(SettingChange::Delete("api_key_plaintext"));
            changes.push(SettingChange::Delete("api_key_keychain_error"));
            changes.push(SettingChange::Store("api_key_storage", text::copy_text("os-keychain")));
            assert(changes_of(changes@) =~= kept_in_keychain());
            (changes, "os-keychain")
        },
        Err(error) => {
            changes.push(SettingChange::Store("api_key_plaintext", text::copy_text(api_key)));
            changes.push(
                SettingChange::Store("api_key_storage", text::copy_text("sqlite-plaintext-fallback")),
            );
            changes.push(SettingChange::Store("api_key_keychain_error", error.clone()));
            assert(changes_of(changes@) =~= kept_in_database(api_key@, error@));
            (changes, "sqlite-plaintext-fallback")
        },
    }
}

/// The changes by which a key is forgotten.
pub fn delete_api_key() -> (r: Vec<SettingChange>)
    ensures
        changes_of(r@) == forgotten(),
{
    let mut changes: Vec<SettingChange> = Vec::new();
    changes.push(SettingChange::Delete("api_key_plaintext"));
    changes.push(SettingChange::Delete("api_key_keychain_error"));
    changes.push(SettingChange::Store("api_key_storage", text::copy_text("none")));
    assert(changes_of(changes@) =~= forgotten());
    changes
}

proof fn lemma_key_names()
    ensures
        "api_key_plaintext"@ != "api_key_storage"@,
        "api_key_plaintext"@ != "api_key_keychain_error"@,
{
    reveal_strlit("api_key_plaintext");
    reveal_strlit("api_key_storage");
    reveal_strlit("api_key_keychain_error");
    assert("api_key_plaintext"@.len() != "api_key_storage"@.len());
    assert("api_key_plaintext"@.len() != "api_key_keychain_error"@.len());
}

proof fn lemma_applied_three(stored: Map<Text, Text>, changes: Seq<(Text, Option<Text>)>)
    requires
        changes.len() == 3,
        changes[0].0 == "api_key_plaintext"@,
        changes[1].0 != changes[0].0,
        changes[2].0 != changes[0].0,
    ensures
        plain_key(applied(stored, changes)) == changes[0].1,
{
    let two = changes.drop_last();
    let one = two.drop_last();
    reveal_with_fuel(applied, 4);
    assert(one.last() == changes[0]);
    assert(two.last() == changes[1]);
}

/// A key that was saved is the one in force afterwards: from the keychain if it took the key, and from
/// the database otherwise, unless the keychain holds another one.
pub proof fn law_saved_key_is_used(
    stored: Map<Text, Text>,
    keychain: Option<Text>,
    key: Text,
    error: Text,
)
    requires
        !text::is_blank(key),
    ensures
        ({
            let kept = plain_key(applied(stored, kept_in_keychain()));
            kept is None && chosen_key(Some(key), kept) == (Some(key), "os-keychain"@)
        }),
        !is_given(keychain) ==> chosen_key(
            keychain,
            plain_key(applied(stored, kept_in_database(key, error))),
        ) == (Some(key), "sqlite-plaintext-fallback"@),
{
    lemma_key_names();
    lemma_applied_three(stored, kept_in_keychain());
    lemma_applied_three(stored, kept_in_database(key, error));
}

/// A key that was forgotten is nowhere in force.
pub proof fn law_forgotten_key_is_gone(stored: Map<Text, Text>)
    ensures
        chosen_key(None, plain_key(applied(stored, forgotten()))) == (None::<Text>, "none"@),
{
    lemma_key_names();
    lemma_applied_three(stored, forgotten());
}

/// The settings in force: the stored source directory and the key; the rest has its default.
pub fn load_settings(
    source_path: Option<String>,
    keychain: Option<String>,
    plain: Option<String>,
) -> (r: Settings)
    ensures
        r.has_simple_defaults(),
        r.source_path == source_path,
        opt_text(r.api_key) == chosen_key(opt_text(keychain), opt_text(plain)).0,
        r.api_key_storage@ == chosen_key(opt_text(keychain), opt_text(plain)).1,
        r.api_key_saved == (r.api_key is Some),
{
    let mut settings = Settings::default();
    settings.source_path = source_path;
    apply_simple_defaults(&mut settings);
    let (api_key, storage) = load_api_key(keychain, plain);
    settings.api_key_saved = api_key.is_some();
    settings.api_key_storage = storage;
    settings.api_key = api_key;
    settings
}

// ---------------------------------------------------------------------------------------------
// Storing

/// What a user enters, but for the temperature.
pub struct SettingsUpdate {
    pub model: String,
    pub thinking_enabled: bool,
    pub reasoning_effort: String,
    pub max_context_chars: usize,
    pub comprehensive_batch_chars: usize,
    pub api_key: Option<String>,
    pub clear_api_key: bool,
}

/// What becomes of the stored key.
pub enum KeyChange {
    Clear,
    Save(String),
    Keep,
}

/// A number moved into a range.
pub open spec fn clamped(n: nat, low: nat, high: nat) -> nat {
    if n < low {
        low
    } else if n > high {
        high
    } else {
        n
    }
}

/// A number moved into a range.
pub fn clamp(n: usize, low: usize, high: usize) -> (r: usize)
    requires
        low <= high,
    ensures
        r == clamped(n as nat, low as nat, high as nat),
        low <= r <= high,
{
    if n < low {
        low
    } else if n > high {
        high
    } else {
        n
    }
}

/// The names and values of the settings to store.
pub open spec fn stored_settings(update: SettingsUpdate) -> Seq<(Text, Text)> {
    seq![
        ("model"@, text::trimmed(update.model@)),
        ("thinking_enabled"@, if update.thinking_enabled {
            "true"@
        } else {
            "false"@
        }),
        ("reasoning_effort"@, text::trimmed(update.reasoning_effort@)),
        (
            "max_context_chars"@,
            text::decimal(
                clamped(
                    update.max_context_chars as nat,
                    MIN_CONTEXT_CHARS as nat,
                    MAX_CONTEXT_CHARS as nat,
                ),
            ),
        ),
        (
            "comprehensive_batch_chars"@,
            text::decimal(
                clamped(
                    update.comprehensive_batch_chars as nat,
                    MIN_BATCH_CHARS as nat,
                    MAX_BATCH_CHARS as nat,
                ),
            ),
        ),
    ]
}

/// The contents of names and values.
pub open spec fn entries(items: Seq<(&'static str, String)>) -> Seq<(Text, Text)> {
    Seq::new(items.len(), |i: int| (items[i].0@, items[i].1@))
}

/// The settings to store, and what becomes of the stored key.
pub fn save_settings(update: &SettingsUpdate) -> (r: (Vec<(&'static str, String)>, KeyChange))
    ensures
        entries(r.0@) == stored_settings(*update),
        match r.1 {
            KeyChange::Clear => update.clear_api_key,
            KeyChange::Save(key) => !update.clear_api_key && is_given(opt_text(update.api_key))
                && key@ == text::trimmed(update.api_key.unwrap()@),
            KeyChange::Keep => !update.clear_api_key && !is_given(opt_text(update.api_key)),
        },
{
    let context = clamp(update.max_context_chars, MIN_CONTEXT_CHARS, MAX_CONTEXT_CHARS);
    let batch = clamp(update.comprehensive_batch_chars, MIN_BATCH_CHARS, MAX_BATCH_CHARS);
    let mut out: Vec<(&'static str, String)> = Vec::new();
    out.push(("model", text::copy_text(text::trim(update.model.as_str()))));
    out.push(
        (
            "thinking_enabled",
            if update.thinking_enabled {
                text::copy_text("true")
            } else {
                text::copy_text("false")
            },
        ),
    );
    out.push(
        ("reasoning_effort", text::copy_text(text::trim(update.reasoning_effort.as_str()))),
    );
    out.push(("max_context_chars", text::decimal_text(context as u128)));
    out.push(("comprehensive_batch_chars", text::decimal_text(batch as u128)));
    assert(entries(out@) =~= stored_settings(*update));
    let change = if update.clear_api_key {
        KeyChange::Clear
    } else {
        match &update.api_key {
            Some(key) => if text::blank(key.as_str()) {
                KeyChange::Keep
            } else {
                KeyChange::Save(text::copy_text(text::trim(key.as_str())))
            },
            None => KeyChange::Keep,
        }
    };
    (out, change)
}

// ---------------------------------------------------------------------------------------------
// Laws on values

/// The values that settings begin with.
pub proof fn law_defaults(settings: Settings)
    requires
        settings.has_simple_defaults(),
    ensures
        settings.model@ == "deepseek-v4-flash"@,
        !settings.thinking_enabled,
        settings.reasoning_effort@ == "high"@,
        settings.max_context_chars == 12000,
        settings.comprehensive_batch_chars == 6000,
{
}

/// A key of the keychain is preferred to one of the database, and a blank key is none. Where there is a
/// key, it is one of the two, and it is known where it came from.
pub proof fn law_chosen_key(keychain: Option<Text>, plain: Option<Text>, key: Text)
    ensures
        !text::is_blank(key) ==> chosen_key(Some(key), plain) == (Some(key), "os-keychain"@),
        !text::is_blank(key) ==> chosen_key(None, Some(key)) == (
            Some(key),
            "sqlite-plaintext-fallback"@,
        ),
        text::is_blank(key) ==> chosen_key(Some(key), plain) == chosen_key(None, plain),
        text::is_blank(key) ==> chosen_key(None, Some(key)) == (None::<Text>, "none"@),
        chosen_key(None, None) == (None::<Text>, "none"@),
        chosen_key(keychain, plain).0 is None || chosen_key(keychain, plain).0 == keychain
            || chosen_key(keychain, plain).0 == plain,
{
}

/// The sizes that are stored lie between 3000 and 80000 characters for a context, and between 2000 and
/// 16000 for a batch; a size within these bounds is stored as it is. Every other value is stored under
/// its own name.
pub proof fn law_stored_settings(update: SettingsUpdate)
    ensures
        ({
            let stored = stored_settings(update);
            let context = text::number_of(stored[3].1);
            let batch = text::number_of(stored[4].1);
            &&& stored.len() == 5
            &&& stored[0] == ("model"@, text::trimmed(update.model@))
            &&& stored[1].0 == "thinking_enabled"@
            &&& update.thinking_enabled ==> stored[1].1 == "true"@
            &&& !update.thinking_enabled ==> stored[1].1 == "false"@
            &&& stored[2] == ("reasoning_effort"@, text::trimmed(update.reasoning_effort@))
            &&& stored[3].0 == "max_context_chars"@
            &&& stored[4].0 == "comprehensive_batch_chars"@
            &&& 3000 <= context <= 80000
            &&& 3000 <= update.max_context_chars <= 80000 ==> context == update.max_context_chars
            &&& update.max_context_chars < 3000 ==> context == 3000
            &&& update.max_context_chars > 80000 ==> context == 80000
            &&& 2000 <= batch <= 16000
            &&& 2000 <= update.comprehensive_batch_chars <= 16000 ==> batch
                == update.comprehensive_batch_chars
            &&& update.comprehensive_batch_chars < 2000 ==> batch == 2000
            &&& update.comprehensive_batch_chars > 16000 ==> batch == 16000
        }),
{
    text::law_decimal(clamped(update.max_context_chars as nat, 3000, 80000));
    text::law_decimal(clamped(update.comprehensive_batch_chars as nat, 2000, 16000));
}

proof fn lemma_setting_names()
    ensures
        "api_key_plaintext"@ != "api_key_storage"@,
        "api_key_plaintext"@ != "api_key_keychain_error"@,
        "api_key_storage"@ != "api_key_keychain_error"@,
{
    reveal_strlit("api_key_plaintext");
    reveal_strlit("api_key_storage");
    reveal_strlit("api_key_keychain_error");
    assert("api_key_plaintext"@.len() != "api_key_storage"@.len());
    assert("api_key_plaintext"@.len() != "api_key_keychain_error"@.len());
    assert("api_key_storage"@.len() != "api_key_keychain_error"@.len());
}

proof fn lemma_three_applied(
    stored: Map<Text, Text>,
    a: (Text, Option<Text>),
    b: (Text, Option<Text>),
    c: (Text, Option<Text>),
)
    ensures
        applied(stored, seq![a, b, c]) == applied(applied(applied(stored, seq![a]), seq![b]), seq![c]),
        a.1 is Some ==> applied(stored, seq![a]) == stored.insert(a.0, a.1.unwrap()),
        a.1 is None ==> applied(stored, seq![a]) == stored.remove(a.0),
{
    let three = seq![a, b, c];
    let two = three.drop_last();
    let one = two.drop_last();
    let none = Seq::<(Text, Option<Text>)>::empty();
    assert(one.drop_last() =~= none);
    assert(seq![a].drop_last() =~= none);
    assert(seq![b].drop_last() =~= none);
    assert(seq![c].drop_last() =~= none);
    assert(one =~= seq![a]);
    reveal_with_fuel(applied, 4);
}

/// Where a key is kept is on record: in the keychain, with nothing of it in the database; in the
/// database, together with the error that kept it out of the keychain; or nowhere. No other setting is
/// touched.
pub proof fn law_key_records(stored: Map<Text, Text>, key: Text, error: Text, name: Text)
    ensures
        ({
            let kept = applied(stored, kept_in_keychain());
            &&& kept.dom().contains("api_key_storage"@)
            &&& kept["api_key_storage"@] == "os-keychain"@
            &&& !kept.dom().contains("api_key_plaintext"@)
            &&& !kept.dom().contains("api_key_keychain_error"@)
        }),
        ({
            let kept = applied(stored, kept_in_database(key, error));
            &&& kept.dom().contains("api_key_storage"@)
            &&& kept["api_key_storage"@] == "sqlite-plaintext-fallback"@
            &&& kept.dom().contains("api_key_plaintext"@)
            &&& kept["api_key_plaintext"@] == key
            &&& kept.dom().contains("api_key_keychain_error"@)
            &&& kept["api_key_keychain_error"@] == error
        }),
        ({
            let kept = applied(stored, forgotten());
            &&& kept.dom().contains("api_key_storage"@)
            &&& kept["api_key_storage"@] == "none"@
            &&& !kept.dom().contains("api_key_plaintext"@)
            &&& !kept.dom().contains("api_key_keychain_error"@)
        }),
        stored.dom().contains(name) && name != "api_key_storage"@ && name != "api_key_plaintext"@ && name
            != "api_key_keychain_error"@ ==> applied(stored, kept_in_keychain())[name] == stored[name]
            && applied(stored, kept_in_database(key, error))[name] == stored[name] && applied(
            stored,
            forgotten(),
        )[name] == stored[name],
{
    lemma_setting_names();
    let plain = ("api_key_plaintext"@, None::<Text>);
    let failed = ("api_key_keychain_error"@, None::<Text>);
    let chain = ("api_key_storage"@, Some("os-keychain"@));
    let nowhere = ("api_key_storage"@, Some("none"@));
    let copy = ("api_key_plaintext"@, Some(key));
    let base = ("api_key_storage"@, Some("sqlite-plaintext-fallback"@));
    let reason = ("api_key_keychain_error"@, Some(error));
    lemma_three_applied(stored, plain, failed, chain);
    let one = applied(stored, seq![plain]);
    lemma_three_applied(one, failed, chain, chain);
    let two = applied(one, seq![failed]);
    lemma_three_applied(two, chain, chain, chain);
    lemma_three_applied(stored, plain, failed, nowhere);
    lemma_three_applied(two, nowhere, chain, chain);
    lemma_three_applied(stored, copy, base, reason);
    let first = applied(stored, seq![copy]);
    lemma_three_applied(first, base, chain, chain);
    let second = applied(first, seq![base]);
    lemma_three_applied(second, reason, chain, chain);
}

} // verus!
