use session_wrapper::config::render::{
    artifacts, config_example_toml, config_schema_json, profile_example_yaml,
};
use session_wrapper::config::schema::{keys, profile_fields, ConfigKey, ProfileField};

fn expected_toml() -> String {
    [
    "# Example configuration for session-wrapper.\n",
    "#\n",
    "# GENERATED from the wrapper's configuration type. Do not edit in place; edit the\n",
    "# type and regenerate with `cargo xtask gen-config`.\n",
    "#\n",
    "# Copy it where it belongs and edit it there:\n",
    "#     cp docs/reference/examples/config.example.toml \\\n",
    "#        \"${XDG_CONFIG_HOME:-$HOME/.config}/session-wrapper/config.toml\"\n",
    "#\n",
    "# The wrapper never writes your configuration. A missing file is not an error.\n",
    "#\n",
    "# Every value below is an obviously fake placeholder. Replace before use.\n",
    "\n",
    "# Absolute path to the agent binary to run. Unset searches PATH.\n",
    "# child_bin = \"/path/to/agent\"\n",
    "\n",
    "# Account to select when --account is absent. Unset falls through to the\n",
    "# last-used marker.\n",
    "# default_account = \"replace-me\"\n",
    "\n",
    "# Profile to compose when --profile is absent. Unset composes nothing.\n",
    "# default_profile = \"replace-me\"\n",
    ]
    .concat()
}

fn expected_schema() -> String {
    [
    "{\n",
    "  \"$schema\": \"https://json-schema.org/draft/2020-12/schema\",\n",
    "  \"title\": \"session-wrapper configuration\",\n",
    "  \"type\": \"object\",\n",
    "  \"additionalProperties\": false,\n",
    "  \"properties\": {\n",
    "    \"child_bin\": {\n",
    "      \"type\": \"string\",\n",
    "      \"description\": \"Absolute path to the agent binary to run. Unset searches PATH.\"\n",
    "    },\n",
    "    \"default_account\": {\n",
    "      \"type\": \"string\",\n",
    "      \"description\": \"Account to select when --account is absent. Unset falls through to the last-used marker.\"\n",
    "    },\n",
    "    \"default_profile\": {\n",
    "      \"type\": \"string\",\n",
    "      \"description\": \"Profile to compose when --profile is absent. Unset composes nothing.\"\n",
    "    }\n",
    "  }\n",
    "}\n",
    ]
    .concat()
}

fn expected_yaml() -> String {
    [
    "# Example profile for session-wrapper.\n",
    "#\n",
    "# GENERATED from the profile type. Do not edit in place; edit the\n",
    "# type and regenerate with `cargo xtask gen-config`.\n",
    "#\n",
    "# Copy it where it belongs and edit it there:\n",
    "#     cp docs/reference/examples/profile.example.yaml \\\n",
    "#        \"${XDG_CONFIG_HOME:-$HOME/.config}/session-wrapper/profiles/dev.yaml\"\n",
    "#\n",
    "# The wrapper never writes your configuration. A missing file is not an error.\n",
    "#\n",
    "# Every value below is an obviously fake placeholder. Replace before use.\n",
    "\n",
    "# The ordered piece names, resolved under the settings directory. Later\n",
    "# wins.\n",
    "layers:\n",
    "  - replace-me\n",
    "  - replace-me-too\n",
    "\n",
    "# Per-key exceptions to the default array rule, which is replace. Keyed by\n",
    "# RFC 6901 JSON Pointer, so a settings key containing a dot stays\n",
    "# addressable. Omit this table entirely to take replace everywhere.\n",
    "array_strategies:\n",
    "  # Elements appended in layer order.\n",
    "  \"/permissions/allow\": { strategy: concat }\n",
    "  # Elements matched on the named field and merged; unmatched ones appended.\n",
    "  \"/hooks/PreToolUse\": { strategy: merge-by-key, key: matcher }\n",
    ]
    .concat()
}


#[test]
fn every_key_description_is_non_empty() {
    for key in keys() {
        assert!(!key.description.trim().is_empty(), "{}", key.name);
    }
}

#[test]
fn the_configuration_example_is_rendered_from_the_keys() {
    assert_eq!(config_example_toml(), expected_toml());
}

#[test]
fn the_schema_is_rendered_from_the_keys() {
    assert_eq!(config_schema_json(), expected_schema());
}

#[test]
fn the_profile_example_is_rendered_from_the_fields() {
    assert_eq!(profile_example_yaml(), expected_yaml());
}

#[test]
fn every_artifact_ends_with_exactly_one_newline_and_no_carriage_return() {
    for (path, contents) in artifacts() {
        assert!(contents.ends_with('\n'), "{path}");
        assert!(!contents.ends_with("\n\n"), "{path}");
        assert!(!contents.contains('\r'), "{path}");
    }
}

#[test]
fn the_artifact_table_names_each_generated_file_once() {
    let table = artifacts();
    let paths: Vec<&str> = table.iter().map(|(path, _)| *path).collect();
    assert_eq!(
        paths,
        [
            "docs/reference/examples/config.example.toml",
            "docs/reference/examples/config.schema.json",
            "docs/reference/examples/profile.example.yaml",
        ]
    );
    assert_eq!(table[0].1, config_example_toml());
    assert_eq!(table[1].1, config_schema_json());
    assert_eq!(table[2].1, profile_example_yaml());
}

#[test]
fn rendering_twice_gives_identical_text() {
    assert_eq!(artifacts(), artifacts());
}

#[test]
fn every_key_is_optional_and_every_field_is_described() {
    let all: Vec<ConfigKey> = keys();
    assert_eq!(all.len(), 3);
    assert!(all.iter().all(|key| !key.required));
    let fields: Vec<ProfileField> = profile_fields();
    assert_eq!(fields.len(), 2);
    assert_eq!(fields[0].name, "layers");
    assert_eq!(fields[1].body.len(), 4);
}

#[test]
fn a_long_description_wraps_at_the_seventy_fourth_byte() {
    let text = config_example_toml();
    for line in text.lines() {
        assert!(line.len() <= 82, "{line}");
    }
    assert!(text.contains("# Account to select when --account is absent. Unset falls through to the\n# last-used marker.\n"));
}
