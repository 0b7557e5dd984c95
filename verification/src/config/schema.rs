//! The reflectable description of the configuration file and the profile document.
//!
//! The generated artifacts render from these descriptors, never from a parallel
//! document that could drift from the types.

use vstd::prelude::*;

verus! {

/// One configuration key, as the generated artifacts render it.
pub struct ConfigKey {
    /// The key's file spelling.
    pub name: &'static str,
    /// The JSON Schema type the value takes.
    pub value_type: &'static str,
    /// Whether a valid file must set it.
    pub required: bool,
    /// What the key means.
    pub description: &'static str,
    /// An obviously fake value, so a copied example cannot be used as-is.
    pub placeholder: &'static str,
}

/// One field of the profile document, as the generated example renders it.
pub struct ProfileField {
    /// The field's YAML spelling.
    pub name: &'static str,
    /// What the field means.
    pub description: &'static str,
    /// The rendered body, already indented for its nesting.
    pub body: Vec<&'static str>,
}

/// The description of the account key.
pub open spec fn default_account_description() -> Seq<char> {
    "Account to select when --account is absent. Unset falls through to the last-used marker."@
}

/// The key list, as `(name, type, required, description, placeholder)`.
pub open spec fn keys_spec() -> Seq<(Seq<char>, Seq<char>, bool, Seq<char>, Seq<char>)> {
    seq![
        ("child_bin"@, "string"@, false,
            "Absolute path to the agent binary to run. Unset searches PATH."@,
            "/path/to/agent"@),
        ("default_account"@, "string"@, false, default_account_description(), "replace-me"@),
        ("default_profile"@, "string"@, false,
            "Profile to compose when --profile is absent. Unset composes nothing."@,
            "replace-me"@),
    ]
}

/// The view of one key descriptor.
pub open spec fn key_view(k: ConfigKey) -> (Seq<char>, Seq<char>, bool, Seq<char>, Seq<char>) {
    (k.name@, k.value_type@, k.required, k.description@, k.placeholder@)
}

/// The views of a key list.
pub open spec fn key_views(v: Seq<ConfigKey>) -> Seq<(Seq<char>, Seq<char>, bool, Seq<char>, Seq<char>)> {
    v.map_values(|k: ConfigKey| key_view(k))
}

/// The description of the strategy table field.
pub open spec fn array_strategies_description() -> Seq<char> {
    "Per-key exceptions to the default array rule, which is replace. Keyed by RFC 6901 JSON Pointer, so a settings key containing a dot stays addressable. Omit this table entirely to take replace everywhere."@
}

/// The profile field list, as `(name, description, body lines)`.
pub open spec fn profile_fields_spec() -> Seq<(Seq<char>, Seq<char>, Seq<Seq<char>>)> {
    seq![
        ("layers"@,
            "The ordered piece names, resolved under the settings directory. Later wins."@,
            seq!["  - replace-me"@, "  - replace-me-too"@]),
        ("array_strategies"@, array_strategies_description(),
            seq![
                "  # Elements appended in layer order."@,
                "  \"/permissions/allow\": { strategy: concat }"@,
                "  # Elements matched on the named field and merged; unmatched ones appended."@,
                "  \"/hooks/PreToolUse\": { strategy: merge-by-key, key: matcher }"@,
            ]),
    ]
}

/// The views of a list of string slices.
pub open spec fn str_views(v: Seq<&'static str>) -> Seq<Seq<char>> {
    v.map_values(|s: &'static str| s@)
}

/// The view of one profile field descriptor.
pub open spec fn field_view(f: ProfileField) -> (Seq<char>, Seq<char>, Seq<Seq<char>>) {
    (f.name@, f.description@, str_views(f.body@))
}

/// The views of a profile field list.
pub open spec fn field_views(v: Seq<ProfileField>) -> Seq<(Seq<char>, Seq<char>, Seq<Seq<char>>)> {
    v.map_values(|f: ProfileField| field_view(f))
}

/// Every key of the wrapper's configuration file, in file order.
///
/// Every key is optional, so an example whose keys are all commented out is a
/// minimal valid configuration.
pub fn keys() -> (r: Vec<ConfigKey>)
    ensures
        key_views(r@) == keys_spec(),
{
    let mut r: Vec<ConfigKey> = Vec::new();
    r.push(ConfigKey {
        name: "child_bin",
        value_type: "string",
        required: false,
        description: "Absolute path to the agent binary to run. Unset searches PATH.",
        placeholder: "/path/to/agent",
    });
    r.push(ConfigKey {
        name: "default_account",
        value_type: "string",
        required: false,
        description: "Account to select when --account is absent. Unset falls through to the last-used marker.",
        placeholder: "replace-me",
    });
    r.push(ConfigKey {
        name: "default_profile",
        value_type: "string",
        required: false,
        description: "Profile to compose when --profile is absent. Unset composes nothing.",
        placeholder: "replace-me",
    });
    proof {
        assert(key_views(r@) =~= keys_spec());
    }
    r
}

/// Every field of the profile document, in file order.
pub fn profile_fields() -> (r: Vec<ProfileField>)
    ensures
        field_views(r@) == profile_fields_spec(),
{
    let mut layers_body: Vec<&'static str> = Vec::new();
    layers_body.push("  - replace-me");
    layers_body.push("  - replace-me-too");
    let mut strategies_body: Vec<&'static str> = Vec::new();
    strategies_body.push("  # Elements appended in layer order.");
    strategies_body.push("  \"/permissions/allow\": { strategy: concat }");
    strategies_body.push("  # Elements matched on the named field and merged; unmatched ones appended.");
    strategies_body.push("  \"/hooks/PreToolUse\": { strategy: merge-by-key, key: matcher }");
    let mut r: Vec<ProfileField> = Vec::new();
    r.push(ProfileField {
        name: "layers",
        description: "The ordered piece names, resolved under the settings directory. Later wins.",
        body: layers_body,
    });
    r.push(ProfileField {
        name: "array_strategies",
        description: "Per-key exceptions to the default array rule, which is replace. Keyed by RFC 6901 JSON Pointer, so a settings key containing a dot stays addressable. Omit this table entirely to take replace everywhere.",
        body: strategies_body,
    });
    proof {
        assert(str_views(r@[0].body@) =~= profile_fields_spec()[0].2);
        assert(str_views(r@[1].body@) =~= profile_fields_spec()[1].2);
        assert(field_views(r@) =~= profile_fields_spec());
    }
    r
}

} // verus!
