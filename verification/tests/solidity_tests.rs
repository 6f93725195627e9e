use std::collections::HashMap;
use vrm::vrm::entry_config::{BodyPartConfig, EntryConfig, SolidityType};
use vrm::vrm::gen_solidity::{abi_text_of, SolidityError};

fn sol_part(is_public: bool, regex_def: &str, solidity: Option<SolidityType>) -> BodyPartConfig {
    BodyPartConfig { is_public, regex_def: regex_def.to_string(), max_size: 8, solidity }
}

fn sol_config(parts: Vec<BodyPartConfig>) -> EntryConfig {
    let mut rules = HashMap::new();
    rules.insert(3, parts);
    EntryConfig { max_header_size: 1024, max_body_size: 2048, rules }
}

const STRING_ENCODE_0: &str = "
        bytes memory substr0Bytes = bytes(param.substr0String);
        for (uint i = 0; i < substr0Bytes.length; i++) {
            maskedStrPart[
                HEADER_MAX_BYTE_SIZE + param.substr0Start + i
            ] = substr0Bytes[i];
            substrIdsPart[
                HEADER_MAX_BYTE_SIZE + param.substr0Start + i
            ] = bytes1(uint8(1));
        }

    ";

#[test]
fn verifier_fills_names_and_sizes() {
    let c = sol_config(vec![sol_part(false, "a", None)]);
    let v = c.gen_verifier_for_one_rule(3, "contract <%RULE_INDEX%> { uint h = <%HEADER_MAX_BYTE_SIZE%>; uint b = <%BODY_MAX_BYTE_SIZE%>; }");
    assert_eq!(v, Ok("contract Rule3 { uint h = 1024; uint b = 2048; }".to_string()));
}

#[test]
fn verifier_param_defs_of_public_parts() {
    let c = sol_config(vec![
        sol_part(false, "a", None),
        sol_part(true, "b", Some(SolidityType::String)),
        sol_part(true, "c", Some(SolidityType::Uint)),
        sol_part(true, "d", Some(SolidityType::Decimal)),
    ]);
    let v = c.gen_verifier_for_one_rule(3, "<%BODY_PARAM_DEFS%>").unwrap();
    let expected = "        uint substr0Start;\n        string substr0String;\n".to_string()
        + "        uint substr1Start;\n        uint substr1Uint;\n"
        + "        uint substr2Start;\n        uint substr2IntPart;\n        uint substr2DecNumZero;\n        uint substr2DecimalPart;\n";
    assert_eq!(v, expected);
}

#[test]
fn verifier_encode_part_of_string() {
    let c = sol_config(vec![sol_part(true, "b", Some(SolidityType::String))]);
    let v = c.gen_verifier_for_one_rule(3, "<%BODY_ENCODE_PART%>").unwrap();
    assert_eq!(v, STRING_ENCODE_0);
}

#[test]
fn verifier_encode_parts_are_numbered() {
    let c = sol_config(vec![sol_part(true, "b", Some(SolidityType::Uint)), sol_part(true, "c", Some(SolidityType::Decimal))]);
    let v = c.gen_verifier_for_one_rule(3, "<%BODY_ENCODE_PART%>").unwrap();
    assert!(v.contains("bytes(param.substr0Uint.toString())"));
    assert!(v.contains("bytes1(uint8(1))"));
    assert!(v.contains("param.substr1IntPart,"));
    assert!(v.contains("bytes1(uint8(2))"));
    assert!(!v.contains("<%ID"));
}

#[test]
fn verifier_needs_solidity_type_of_public_part() {
    let c = sol_config(vec![sol_part(true, "b", Some(SolidityType::String)), sol_part(true, "c", None)]);
    assert_eq!(c.gen_verifier_for_one_rule(3, "x"), Err(SolidityError::MissingSolidityType));
    let private_untyped = sol_config(vec![sol_part(false, "c", None)]);
    assert!(private_untyped.gen_verifier_for_one_rule(3, "x").is_ok());
}

#[test]
fn manipulator_and_deploy_script() {
    let c = sol_config(vec![]);
    assert_eq!(c.gen_manipulator_for_one_rule(3, "contract <%RULE_INDEX%>Manipulator"), "contract Rule3Manipulator");
    assert_eq!(c.gen_deploy_script_for_one_rule(3, "new Manipulator<%RULE_INDEX%>()"), "new Manipulator3()");
}

#[test]
fn solidity_codes_of_a_rule() {
    let c = sol_config(vec![sol_part(true, "b", Some(SolidityType::String))]);
    let codes = c.gen_solidity_codes(3, "<%RULE_INDEX%>:<%BODY_PARAM_DEFS%>", "M<%RULE_INDEX%>", "D<%RULE_INDEX%>").unwrap();
    assert_eq!(codes.verifier, "Rule3:        uint substr0Start;\n        string substr0String;\n");
    assert_eq!(codes.manipulator, "MRule3");
    assert_eq!(codes.deployer, "D3");
    let untyped = sol_config(vec![sol_part(true, "b", None)]);
    assert!(matches!(untyped.gen_solidity_codes(3, "", "", ""), Err(SolidityError::MissingSolidityType)));
}

#[test]
fn verifier_names_are_renamed() {
    let c = sol_config(vec![]);
    assert_eq!(c.replace_verifier_names("contract Verifier { Verifier v; }", 2), "contract Rule2Verifier { Rule2Verifier v; }");
    assert_eq!(c.replace_verifier_names("nothing", 2), "nothing");
}

#[test]
fn abi_files_to_copy() {
    let c = sol_config(vec![]);
    let plan = c.abi_copy_plan("/sol", "/rel");
    assert_eq!(
        plan,
        vec![
            ("/sol/out/EmailWallet.sol/EmailWallet.json".to_string(), "/rel/configs/EmailWallet.json".to_string()),
            ("/sol/out/IERC20.sol/IERC20.json".to_string(), "/rel/configs/IERC20.json".to_string()),
            ("/sol/out/IManipulator.sol/IManipulator.json".to_string(), "/rel/configs/IManipulator.json".to_string()),
        ]
    );
}

#[test]
fn abi_text_of_build_output() {
    assert_eq!(
        abi_text_of("{\"abi\": [1, {\"type\": \"function\"}], \"bytecode\": \"0x00\"}"),
        Some(Some("[1,{\"type\":\"function\"}]".to_string()))
    );
    assert_eq!(abi_text_of("{\"bytecode\": \"0x00\"}"), Some(None));
    assert_eq!(abi_text_of("[1, 2]"), Some(None));
    assert_eq!(abi_text_of("not json"), None);
}

#[test]
fn private_parts_leave_verifier_unchanged() {
    let template = "<%BODY_PARAM_DEFS%>|<%BODY_ENCODE_PART%>";
    let plain = sol_config(vec![sol_part(true, "b", Some(SolidityType::String)), sol_part(true, "c", Some(SolidityType::Uint))]);
    let with_private = sol_config(vec![
        sol_part(false, "a", None),
        sol_part(true, "b", Some(SolidityType::String)),
        sol_part(false, "x", Some(SolidityType::Decimal)),
        sol_part(true, "c", Some(SolidityType::Uint)),
        sol_part(false, "z", None),
    ]);
    assert_eq!(plain.gen_verifier_for_one_rule(3, template), with_private.gen_verifier_for_one_rule(3, template));
}

#[test]
fn solidity_error_message() {
    assert_eq!(SolidityError::MissingSolidityType.message(), "The public part must have a Solidity type.");
}
