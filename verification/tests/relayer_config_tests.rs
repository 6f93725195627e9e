use std::collections::HashMap;
use vrm::entry_config::{DecomposedRegexConfig, EntryConfig as RootConfig};
use vrm::gen_relayer_configs::AppConfigParams as RootAppParams;
use vrm::key_paths::KeyPaths;
use vrm::vrm::entry_config::{BodyPartConfig, EntryConfig, SolidityType};
use vrm::vrm::gen_relayer_configs::{join_paths, manipulation_def_for, public_part_defs, AppConfigParams, ManipulationDefs};

fn cfg_part(is_public: bool, regex_def: &str, solidity: Option<SolidityType>) -> BodyPartConfig {
    BodyPartConfig { is_public, regex_def: regex_def.to_string(), max_size: 8, solidity }
}

fn parts() -> Vec<BodyPartConfig> {
    vec![
        cfg_part(false, "a", None),
        cfg_part(true, "b", Some(SolidityType::String)),
        cfg_part(false, "c", None),
        cfg_part(true, "d", Some(SolidityType::Uint)),
    ]
}

fn rule_config() -> EntryConfig {
    let mut rules = HashMap::new();
    rules.insert(3, parts());
    EntryConfig { max_header_size: 1024, max_body_size: 2048, rules }
}

fn app_params() -> AppConfigParams {
    AppConfigParams {
        header_max_byte_size: 0,
        body_max_byte_size: 0,
        bodyhash_regex_filepath: "bh_regex.txt".to_string(),
        bodyhash_substr_filepath: "bh_substr.txt".to_string(),
        header_regex_filepathes: vec!["h1.txt".to_string(), "/abs/h2.txt".to_string()],
        header_substr_filepathes: vec!["hs.txt".to_string()],
        body_regex_filepathes: vec![],
        body_substr_filepathes: vec![],
        body_substr_regexes: vec![],
    }
}

#[test]
fn public_part_regex_pairs_and_types() {
    let (pairs, types) = public_part_defs(&parts());
    assert_eq!(pairs, vec![vec!["abc".to_string(), "b".to_string()], vec!["cd".to_string(), "d".to_string()]]);
    assert_eq!(types, vec![SolidityType::String, SolidityType::Uint]);
}

#[test]
fn public_part_pair_of_single_part() {
    let (pairs, _) = public_part_defs(&vec![cfg_part(true, "x", Some(SolidityType::Decimal))]);
    assert_eq!(pairs, vec![vec!["x".to_string(), "x".to_string()]]);
}

#[test]
fn join_many_paths() {
    assert_eq!(join_paths("/w", &vec!["a".to_string(), "/b".to_string()]), vec!["/w/a".to_string(), "/b".to_string()]);
}

#[test]
fn manipulation_def_paths() {
    let def = manipulation_def_for(4, "/r/configs", 10, 20, vec![SolidityType::Uint]);
    assert_eq!(def.app_config_path, "/r/configs/app_circuit_id4.config");
    assert_eq!(def.agg_config_path, "/r/configs/agg_circuit.config");
    assert_eq!(def.app_pk_path, "/r/configs/app_4.pk");
    assert_eq!(def.agg_pk_path, "/r/configs/agg_4.pk");
    assert_eq!((def.max_header_size, def.max_body_size), (10, 20));
    assert_eq!(def.types, vec![SolidityType::Uint]);
}

#[test]
fn config_files_of_a_rule() {
    let c = rule_config();
    let mut p = app_params();
    let def = c.gen_config_files_for_one_rule(3, "/work/relayer", "/work", &mut p);
    assert_eq!(p.header_max_byte_size, 1024);
    assert_eq!(p.body_max_byte_size, 2048);
    assert_eq!(p.bodyhash_regex_filepath, "/work/bh_regex.txt");
    assert_eq!(p.bodyhash_substr_filepath, "/work/bh_substr.txt");
    assert_eq!(p.header_regex_filepathes, vec!["/work/h1.txt".to_string(), "/abs/h2.txt".to_string()]);
    assert_eq!(p.header_substr_filepathes, vec!["/work/hs.txt".to_string()]);
    assert_eq!(
        p.body_regex_filepathes,
        vec!["/work/relayer/configs/regex_body_id3.txt".to_string(), "/work/relayer/configs/regex_body_id3.txt".to_string()]
    );
    assert_eq!(
        p.body_substr_filepathes,
        vec!["/work/relayer/configs/substr_body_id3_0.txt".to_string(), "/work/relayer/configs/substr_body_id3_1.txt".to_string()]
    );
    assert_eq!(p.body_substr_regexes.len(), 2);
    assert_eq!(def.app_config_path, "/work/relayer/configs/app_circuit_id3.config");
    assert_eq!(def.agg_pk_path, "/work/relayer/configs/agg_3.pk");
    assert_eq!(def.types, vec![SolidityType::String, SolidityType::Uint]);
}

#[test]
fn regex_file_paths_of_a_rule() {
    let c = rule_config();
    let (regex, substrs) = c.regex_file_paths(3, "/work/relayer");
    assert_eq!(regex, "/work/relayer/configs/regex_body_id3.txt");
    assert_eq!(
        substrs,
        vec!["/work/relayer/configs/substr_body_id3_0".to_string(), "/work/relayer/configs/substr_body_id3_1".to_string()]
    );
}

#[test]
fn config_points_at_regex_file() {
    let c = rule_config();
    let mut p = app_params();
    c.gen_config_files_for_one_rule(3, "/work/relayer", "/work", &mut p);
    let (regex, _) = c.regex_file_paths(3, "/work/relayer");
    assert!(p.body_regex_filepathes.iter().all(|f| *f == regex));
}

fn root_config() -> RootConfig {
    let mut rules = HashMap::new();
    rules.insert(2, DecomposedRegexConfig { max_byte_size: 512, parts: parts() });
    RootConfig { max_header_size: 256, rules }
}

#[test]
fn root_regex_files_of_a_rule() {
    let (allstr, substrs) = root_config().gen_regex_files_for_one_rule(2, "/r");
    assert_eq!(allstr, "/r/configs/body_id2_allstr.txt");
    assert_eq!(substrs, vec!["body_id2_substr_0.txt".to_string(), "body_id2_substr_1.txt".to_string()]);
}

#[test]
fn root_config_files_of_a_rule() {
    let c = root_config();
    let mut p = RootAppParams {
        header_max_byte_size: 0,
        body_max_byte_size: 0,
        bodyhash_regex_filepath: "bh.txt".to_string(),
        bodyhash_substr_filepath: "bhs.txt".to_string(),
        header_regex_filepathes: vec![],
        header_substr_filepathes: vec![],
        body_regex_filepath: String::new(),
        body_substr_filepathes: vec![],
        body_substr_regexes: vec![],
    };
    let def = c.gen_config_files_for_one_rule(2, "/r", "/w", &mut p);
    assert_eq!((p.header_max_byte_size, p.body_max_byte_size), (256, 512));
    assert_eq!(p.bodyhash_regex_filepath, "/w/bh.txt");
    assert_eq!(p.body_regex_filepath, "/r/configs/body_id2_allstr.txt");
    assert_eq!(
        p.body_substr_filepathes,
        vec!["/r/configs/body_id2_substr_0.txt".to_string(), "/r/configs/body_id2_substr_1.txt".to_string()]
    );
    assert_eq!(p.body_substr_regexes[1], vec!["cd".to_string(), "d".to_string()]);
    assert_eq!(def.max_body_size, 512);
    assert_eq!(def.app_pk_path, "/r/configs/app_2.pk");
}

#[test]
fn root_config_substr_paths_end_with_generated_names() {
    let c = root_config();
    let mut p = RootAppParams {
        header_max_byte_size: 0,
        body_max_byte_size: 0,
        bodyhash_regex_filepath: String::new(),
        bodyhash_substr_filepath: String::new(),
        header_regex_filepathes: vec![],
        header_substr_filepathes: vec![],
        body_regex_filepath: String::new(),
        body_substr_filepathes: vec![],
        body_substr_regexes: vec![],
    };
    c.gen_config_files_for_one_rule(2, "/r", "/w", &mut p);
    let (allstr, names) = c.gen_regex_files_for_one_rule(2, "/r");
    assert_eq!(p.body_regex_filepath, allstr);
    assert_eq!(p.body_substr_filepathes.len(), names.len());
    for (path, name) in p.body_substr_filepathes.iter().zip(names.iter()) {
        assert!(path.ends_with(name.as_str()));
    }
}

#[test]
fn key_paths_of_added_rule() {
    let k = KeyPaths::for_added_rule("/root", "/sol", "/rel", 4);
    assert_eq!(k.app_params, "/rel/configs/app_params.bin");
    assert_eq!(k.agg_params, "/rel/configs/agg_params.bin");
    assert_eq!(k.agg_circuit_config, "/rel/configs/agg_circuit.config");
    assert_eq!(k.app_circuit_config, "/rel/configs/app_circuit_id4.config");
    assert_eq!(k.email, "/root/example_emails/email_id4.eml");
    assert_eq!(k.app_pk, "/rel/relayer/configs/app_4.pk");
    assert_eq!(k.agg_pk, "/rel/configs/agg_4.pk");
    assert_eq!(k.app_vk, "/rel/configs/app_4.vk");
    assert_eq!(k.agg_vk, "/rel/configs/agg_4.vk");
    assert_eq!(k.bytecode, "/rel/configs/agg_verifier_id4.bin");
    assert_eq!(k.verifier_sol, "/sol/src/rule4/Verifier.sol");
}

#[test]
fn key_paths_of_setup() {
    let k = KeyPaths::for_setup("/w", 1);
    assert_eq!(k.app_params, "/w/relayer/configs/app_params.bin");
    assert_eq!(k.app_circuit_config, "/w/relayer/configs/app_circuit_id1.config");
    assert_eq!(k.email, "/w/emails/email_id1.eml");
    assert_eq!(k.app_pk, "/w/relayer/configs/app_1.pk");
    assert_eq!(k.agg_vk, "/w/relayer/configs/agg_1.vk");
    assert_eq!(k.bytecode, "/w/relayer/configs/agg_verifier_id1.bin");
    assert_eq!(k.verifier_sol, "/w/email-wallet-contracts/src/rule1/Verifier.sol");
}

#[test]
fn added_rule_keys_are_the_defined_ones() {
    let k = KeyPaths::for_added_rule("/root", "/sol", "/rel", 4);
    let def = manipulation_def_for(4, "/rel/configs", 1, 2, vec![]);
    assert_eq!(k.agg_pk, def.agg_pk_path);
    assert_eq!(k.app_circuit_config, def.app_config_path);
    assert_eq!(k.agg_circuit_config, def.agg_config_path);
}

#[test]
fn setup_keys_are_the_defined_ones() {
    let k = KeyPaths::for_setup("/w", 6);
    let def = manipulation_def_for(6, "/w/relayer/configs", 1, 2, vec![]);
    assert_eq!(k.app_pk, def.app_pk_path);
    assert_eq!(k.agg_pk, def.agg_pk_path);
    assert_eq!(k.app_circuit_config, def.app_config_path);
    assert_eq!(k.agg_circuit_config, def.agg_config_path);
}

#[test]
fn manipulation_defs_insert_replaces_rule() {
    let mut defs = ManipulationDefs::new();
    assert!(defs.rules.is_empty());
    defs.insert_rule(1, manipulation_def_for(1, "/c", 1, 2, vec![]));
    defs.insert_rule(2, manipulation_def_for(2, "/c", 1, 2, vec![]));
    defs.insert_rule(1, manipulation_def_for(1, "/d", 3, 4, vec![SolidityType::Uint]));
    assert_eq!(defs.rules.len(), 2);
    assert_eq!(defs.rules[&1].app_config_path, "/d/app_circuit_id1.config");
    assert_eq!(defs.rules[&1].types, vec![SolidityType::Uint]);
    assert_eq!(defs.rules[&2].agg_pk_path, "/c/agg_2.pk");
}

#[test]
fn recording_a_rule_twice_changes_nothing() {
    let c = rule_config();
    let mut defs = ManipulationDefs::new();
    defs.insert_rule(7, manipulation_def_for(7, "/c", 1, 2, vec![]));
    let mut p1 = app_params();
    defs.insert_rule(3, c.gen_config_files_for_one_rule(3, "/work/relayer", "/work", &mut p1));
    let once: Vec<(usize, String, Vec<SolidityType>)> = {
        let mut v: Vec<_> = defs.rules.iter().map(|(id, d)| (*id, d.app_config_path.clone(), d.types.clone())).collect();
        v.sort_by_key(|e| e.0);
        v
    };
    let mut p2 = app_params();
    defs.insert_rule(3, c.gen_config_files_for_one_rule(3, "/work/relayer", "/work", &mut p2));
    let mut twice: Vec<(usize, String, Vec<SolidityType>)> =
        defs.rules.iter().map(|(id, d)| (*id, d.app_config_path.clone(), d.types.clone())).collect();
    twice.sort_by_key(|e| e.0);
    assert_eq!(once, twice);
    assert_eq!(p1.body_substr_filepathes, p2.body_substr_filepathes);
}
