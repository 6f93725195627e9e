use crate::text::{decimal, decimal_string, join_path, path_join, replace_all, replace_str};
use crate::vrm::entry_config::{parts_view, BodyPartView, EntryConfig, SolidityType};
use crate::vrm::gen_relayer_configs::public_parts_typed;
use crate::json::{json_field_text, json_field_to_string};
use vstd::prelude::*;

verus! {

/// Why a Solidity source cannot be generated.
#[derive(Debug, Clone, Copy, PartialEq, Eq)]
pub enum SolidityError {
    /// A public body part has no Solidity type.
    MissingSolidityType,
}

/// The message of each Solidity error.
pub open spec fn solidity_error_text(e: SolidityError) -> Seq<char> {
    match e {
        SolidityError::MissingSolidityType => "The public part must have a Solidity type."@,
    }
}

impl SolidityError {
    /// The message that describes the error (see [`solidity_error_text`]).
    pub fn message(&self) -> (s: String)
        ensures
            s@ == solidity_error_text(*self),
    {
        match self {
            SolidityError::MissingSolidityType => String::from_str("The public part must have a Solidity type."),
        }
    }
}

/// The three Solidity sources generated for one rule.
pub struct SolidityCodes {
    pub verifier: String,
    pub manipulator: String,
    pub deployer: String,
}

pub const STRING_PARAM_DEFS: &'static str = "        uint substr<%ID%>Start;\n        string substr<%ID%>String;\n";

pub const UINT_PARAM_DEFS: &'static str = "        uint substr<%ID%>Start;\n        uint substr<%ID%>Uint;\n";

pub const DECIMAL_PARAM_DEFS: &'static str = "        uint substr<%ID%>Start;\n        uint substr<%ID%>IntPart;\n        uint substr<%ID%>DecNumZero;\n        uint substr<%ID%>DecimalPart;\n";

pub const STRING_ENCODE_PART: &'static str = r"
        bytes memory substr<%ID%>Bytes = bytes(param.substr<%ID%>String);
        for (uint i = 0; i < substr<%ID%>Bytes.length; i++) {
            maskedStrPart[
                HEADER_MAX_BYTE_SIZE + param.substr<%ID%>Start + i
            ] = substr<%ID%>Bytes[i];
            substrIdsPart[
                HEADER_MAX_BYTE_SIZE + param.substr<%ID%>Start + i
            ] = bytes1(uint8(<%ID+1%>));
        }

    ";

pub const UINT_ENCODE_PART: &'static str = r"
        bytes memory substr<%ID%>Bytes = bytes(param.substr<%ID%>Uint.toString());
        for (uint i = 0; i < substr<%ID%>Bytes.length; i++) {
            maskedStrPart[
                HEADER_MAX_BYTE_SIZE + param.substr<%ID%>Start + i
            ] = substr<%ID%>Bytes[i];
            substrIdsPart[
                HEADER_MAX_BYTE_SIZE + param.substr<%ID%>Start + i
            ] = bytes1(uint8(<%ID+1%>));
        }

    ";

pub const DECIMAL_ENCODE_PART: &'static str = r"
        bytes memory substr<%ID%>Bytes = bytes(
            decString(
                param.substr<%ID%>IntPart,
                param.substr<%ID%>DecNumZero,
                param.substr<%ID%>DecimalPart
            )
        );
        for (uint i = 0; i < substr<%ID%>Bytes.length; i++) {
            maskedStrPart[
                HEADER_MAX_BYTE_SIZE + param.substr<%ID%>Start + i
            ] = substr<%ID%>Bytes[i];
            substrIdsPart[
                HEADER_MAX_BYTE_SIZE + param.substr<%ID%>Start + i
            ] = bytes1(uint8(<%ID+1%>));
        }

    ";

pub open spec fn id_mark() -> Seq<char> {
    seq!['<', '%', 'I', 'D', '%', '>']
}

pub open spec fn next_id_mark() -> Seq<char> {
    seq!['<', '%', 'I', 'D', '+', '1', '%', '>']
}

/// The parameter declarations for a part of the given type.
pub open spec fn param_defs_template(t: SolidityType) -> Seq<char> {
    match t {
        SolidityType::String => STRING_PARAM_DEFS@,
        SolidityType::Uint => UINT_PARAM_DEFS@,
        SolidityType::Decimal => DECIMAL_PARAM_DEFS@,
    }
}

/// The encoding code for a part of the given type.
pub open spec fn encode_part_template(t: SolidityType) -> Seq<char> {
    match t {
        SolidityType::String => STRING_ENCODE_PART@,
        SolidityType::Uint => UINT_ENCODE_PART@,
        SolidityType::Decimal => DECIMAL_ENCODE_PART@,
    }
}

/// The parameter declarations of the public part numbered `sid`.
pub open spec fn param_defs_for(t: SolidityType, sid: nat) -> Seq<char> {
    replace_all(param_defs_template(t), id_mark(), decimal(sid))
}

/// The encoding code of the public part numbered `sid`.
pub open spec fn encode_part_for(t: SolidityType, sid: nat) -> Seq<char> {
    replace_all(replace_all(encode_part_template(t), id_mark(), decimal(sid)), next_id_mark(), decimal(sid + 1))
}

/// The parameter declarations and encoding code of the public parts among
/// `parts`, numbered from `sid` on, or an error at the first public part that
/// has no Solidity type.
pub open spec fn body_codes(parts: Seq<BodyPartView>, sid: nat) -> Result<(Seq<char>, Seq<char>), SolidityError>
    decreases parts.len(),
{
    if parts.len() == 0 {
        Ok((seq![], seq![]))
    } else if !parts[0].is_public {
        body_codes(parts.drop_first(), sid)
    } else {
        match parts[0].solidity {
            None => Err(SolidityError::MissingSolidityType),
            Some(t) => match body_codes(parts.drop_first(), sid + 1) {
                Ok((d, e)) => Ok((param_defs_for(t, sid) + d, encode_part_for(t, sid) + e)),
                Err(err) => Err(err),
            },
        }
    }
}

/// `Rule` followed by the id.
pub open spec fn rule_name(id: usize) -> Seq<char> {
    seq!['R', 'u', 'l', 'e'] + decimal(id as nat)
}

pub open spec fn rule_index_mark() -> Seq<char> {
    seq!['<', '%', 'R', 'U', 'L', 'E', '_', 'I', 'N', 'D', 'E', 'X', '%', '>']
}

/// The verifier wrapper of a rule: the template with the rule name and the two
/// size limits filled in, then the parameter declarations and encoding code of
/// the rule's public parts.
pub open spec fn verifier_code(
    max_header_size: usize,
    max_body_size: usize,
    parts: Seq<BodyPartView>,
    id: usize,
    template: Seq<char>,
) -> Result<Seq<char>, SolidityError> {
    let t1 = replace_all(template, rule_index_mark(), rule_name(id));
    let t2 = replace_all(t1, "<%HEADER_MAX_BYTE_SIZE%>"@, decimal(max_header_size as nat));
    let t3 = replace_all(t2, "<%BODY_MAX_BYTE_SIZE%>"@, decimal(max_body_size as nat));
    match body_codes(parts, 0) {
        Err(e) => Err(e),
        Ok((defs, enc)) => Ok(
            replace_all(replace_all(t3, "<%BODY_PARAM_DEFS%>"@, defs), "<%BODY_ENCODE_PART%>"@, enc),
        ),
    }
}

fn param_defs_const(t: SolidityType) -> (s: &'static str)
    ensures
        s@ == param_defs_template(t),
{
    match t {
        SolidityType::String => STRING_PARAM_DEFS,
        SolidityType::Uint => UINT_PARAM_DEFS,
        SolidityType::Decimal => DECIMAL_PARAM_DEFS,
    }
}

fn encode_part_const(t: SolidityType) -> (s: &'static str)
    ensures
        s@ == encode_part_template(t),
{
    match t {
        SolidityType::String => STRING_ENCODE_PART,
        SolidityType::Uint => UINT_ENCODE_PART,
        SolidityType::Decimal => DECIMAL_ENCODE_PART,
    }
}

impl EntryConfig {
    /// The verifier wrapper of rule `id`, filled from `template` (see [`verifier_code`]).
    pub fn gen_verifier_for_one_rule(&self, id: usize, template: &str) -> (r: Result<String, SolidityError>)
        requires
            self.rules@.contains_key(id),
        ensures
            match verifier_code(self.max_header_size, self.max_body_size, self.rules_view()[id], id, template@) {
                Ok(t) => r matches Ok(s) && s@ == t,
                Err(e) => r == Err::<String, SolidityError>(e),
            },
    {
        proof {
            reveal_strlit("<%RULE_INDEX%>");
            reveal_strlit("Rule");
            reveal_strlit("<%HEADER_MAX_BYTE_SIZE%>");
            reveal_strlit("<%BODY_MAX_BYTE_SIZE%>");
            reveal_strlit("<%ID%>");
            reveal_strlit("<%ID+1%>");
            reveal_strlit("<%BODY_PARAM_DEFS%>");
            reveal_strlit("<%BODY_ENCODE_PART%>");
        }
        assert("<%RULE_INDEX%>"@ =~= rule_index_mark());
        assert("<%ID%>"@ =~= id_mark());
        assert("<%ID+1%>"@ =~= next_id_mark());
        let mut name = String::from_str("Rule");
        let id_str = decimal_string(id);
        name.append(id_str.as_str());
        assert(name@ =~= rule_name(id));
        let mut out = replace_str(template, "<%RULE_INDEX%>", name.as_str());
        let header_str = decimal_string(self.max_header_size);
        out = replace_str(out.as_str(), "<%HEADER_MAX_BYTE_SIZE%>", header_str.as_str());
        let body_str = decimal_string(self.max_body_size);
        out = replace_str(out.as_str(), "<%BODY_MAX_BYTE_SIZE%>", body_str.as_str());
        let parts = self.rule_parts(id);
        let ghost pv = parts_view(parts@);
        let mut body_param_defs = String::new();
        let mut body_encode_part = String::new();
        let mut substr_id: usize = 0;
        let mut k: usize = 0;
        assert(pv.skip(0) =~= pv);
        assert(body_param_defs@ + Seq::<char>::empty() =~= body_param_defs@);
        while k < parts.len()
            invariant
                pv == parts_view(parts@),
                pv == self.rules_view()[id],
                k <= parts@.len(),
                substr_id <= k,
                body_codes(pv, 0) == match body_codes(pv.skip(k as int), substr_id as nat) {
                    Ok((d, e)) => Ok((body_param_defs@ + d, body_encode_part@ + e)),
                    Err(err) => Err(err),
                },
                "<%ID%>"@ == id_mark(),
                "<%ID+1%>"@ == next_id_mark(),
            decreases parts.len() - k,
        {
            let ghost tail = pv.skip(k as int);
            assert(tail[0] == parts@[k as int]@);
            assert(tail.drop_first() =~= pv.skip(k + 1));
            let part = &parts[k];
            if part.is_public {
                let t = match part.solidity {
                    None => {
                        return Err(SolidityError::MissingSolidityType);
                    },
                    Some(t) => t,
                };
                let sid_str = decimal_string(substr_id);
                let defs = replace_str(param_defs_const(t), "<%ID%>", sid_str.as_str());
                let enc1 = replace_str(encode_part_const(t), "<%ID%>", sid_str.as_str());
                let next_str = decimal_string(substr_id + 1);
                let enc = replace_str(enc1.as_str(), "<%ID+1%>", next_str.as_str());
                let ghost d0 = body_param_defs@;
                let ghost e0 = body_encode_part@;
                body_param_defs.append(defs.as_str());
                body_encode_part.append(enc.as_str());
                proof {
                    match body_codes(pv.skip(k + 1), (substr_id + 1) as nat) {
                        Ok((d, e)) => {
                            assert(d0 + (defs@ + d) =~= body_param_defs@ + d);
                            assert(e0 + (enc@ + e) =~= body_encode_part@ + e);
                        },
                        Err(_) => {},
                    }
                }
                substr_id = substr_id + 1;
            }
            k = k + 1;
        }
        proof {
            assert(pv.skip(k as int) =~= Seq::<BodyPartView>::empty());
            assert(body_param_defs@ + Seq::<char>::empty() =~= body_param_defs@);
            assert(body_encode_part@ + Seq::<char>::empty() =~= body_encode_part@);
        }
        out = replace_str(out.as_str(), "<%BODY_PARAM_DEFS%>", body_param_defs.as_str());
        out = replace_str(out.as_str(), "<%BODY_ENCODE_PART%>", body_encode_part.as_str());
        Ok(out)
    }

    /// The manipulator contract of rule `id`: the template with the rule name filled in.
    pub fn gen_manipulator_for_one_rule(&self, id: usize, template: &str) -> (r: String)
        ensures
            r@ == replace_all(template@, rule_index_mark(), rule_name(id)),
    {
        proof {
            reveal_strlit("<%RULE_INDEX%>");
            reveal_strlit("Rule");
        }
        assert("<%RULE_INDEX%>"@ =~= rule_index_mark());
        let mut name = String::from_str("Rule");
        let id_str = decimal_string(id);
        name.append(id_str.as_str());
        assert(name@ =~= rule_name(id));
        replace_str(template, "<%RULE_INDEX%>", name.as_str())
    }

    /// The deployment script of rule `id`: the template with the rule id filled in.
    pub fn gen_deploy_script_for_one_rule(&self, id: usize, template: &str) -> (r: String)
        ensures
            r@ == replace_all(template@, rule_index_mark(), decimal(id as nat)),
    {
        proof {
            reveal_strlit("<%RULE_INDEX%>");
        }
        assert("<%RULE_INDEX%>"@ =~= rule_index_mark());
        let id_str = decimal_string(id);
        replace_str(template, "<%RULE_INDEX%>", id_str.as_str())
    }

    /// The Solidity sources of rule `id`: verifier wrapper, manipulator and
    /// deployment script, each filled from its template.
    pub fn gen_solidity_codes(
        &self,
        id: usize,
        verifier_template: &str,
        manipulator_template: &str,
        deployer_template: &str,
    ) -> (r: Result<SolidityCodes, SolidityError>)
        requires
            self.rules@.contains_key(id),
        ensures
            match verifier_code(self.max_header_size, self.max_body_size, self.rules_view()[id], id, verifier_template@) {
                Ok(t) => r matches Ok(codes) && codes.verifier@ == t
                    && codes.manipulator@ == replace_all(manipulator_template@, rule_index_mark(), rule_name(id))
                    && codes.deployer@ == replace_all(deployer_template@, rule_index_mark(), decimal(id as nat)),
                Err(e) => r matches Err(e2) && e2 == e,
            },
    {
        let verifier = match self.gen_verifier_for_one_rule(id, verifier_template) {
            Ok(v) => v,
            Err(e) => {
                return Err(e);
            },
        };
        let manipulator = self.gen_manipulator_for_one_rule(id, manipulator_template);
        let deployer = self.gen_deploy_script_for_one_rule(id, deployer_template);
        Ok(SolidityCodes { verifier, manipulator, deployer })
    }

    /// The verifier contract of rule `id` renamed: every `Verifier` becomes
    /// `Rule<id>Verifier`.
    pub fn replace_verifier_names(&self, verifier_code: &str, id: usize) -> (r: String)
        ensures
            r@ == replace_all(
                verifier_code@,
                seq!['V', 'e', 'r', 'i', 'f', 'i', 'e', 'r'],
                rule_name(id) + seq!['V', 'e', 'r', 'i', 'f', 'i', 'e', 'r'],
            ),
    {
        proof {
            reveal_strlit("Verifier");
            reveal_strlit("Rule");
        }
        let mut name = String::from_str("Rule");
        let id_str = decimal_string(id);
        name.append(id_str.as_str());
        name.append("Verifier");
        assert("Verifier"@ =~= seq!['V', 'e', 'r', 'i', 'f', 'i', 'e', 'r']);
        assert(name@ =~= rule_name(id) + seq!['V', 'e', 'r', 'i', 'f', 'i', 'e', 'r']);
        replace_str(verifier_code, "Verifier", name.as_str())
    }
}


/// The Solidity codes of a rule can be made exactly when every public part has
/// a Solidity type.
pub proof fn lemma_body_codes_ok(parts: Seq<BodyPartView>, sid: nat)
    ensures
        body_codes(parts, sid) is Ok <==> public_parts_typed(parts),
    decreases parts.len(),
{
    if parts.len() > 0 {
        let rest = parts.drop_first();
        assert forall|i: int| 0 < i < parts.len() implies parts[i] == #[trigger] rest[i - 1] by {}
        if parts[0].is_public {
            lemma_body_codes_ok(rest, sid + 1);
        } else {
            lemma_body_codes_ok(rest, sid);
        }
        if public_parts_typed(parts) {
            assert forall|i: int| 0 <= i < rest.len() && (#[trigger] rest[i]).is_public implies rest[i].solidity is Some by {
                assert(parts[i + 1] == rest[i]);
            }
            assert(parts[0].is_public ==> parts[0].solidity is Some);
        } else {
            let i = choose|i: int| 0 <= i < parts.len() && (#[trigger] parts[i]).is_public && !(parts[i].solidity is Some);
            if i > 0 {
                assert(rest[i - 1].is_public && rest[i - 1].solidity is None);
            }
        }
    }
}


/// The public parts among `parts`, in order.
pub open spec fn public_parts(parts: Seq<BodyPartView>) -> Seq<BodyPartView>
    decreases parts.len(),
{
    if parts.len() == 0 {
        seq![]
    } else if parts[0].is_public {
        seq![parts[0]] + public_parts(parts.drop_first())
    } else {
        public_parts(parts.drop_first())
    }
}

proof fn lemma_body_codes_public(parts: Seq<BodyPartView>, sid: nat)
    ensures
        body_codes(parts, sid) == body_codes(public_parts(parts), sid),
    decreases parts.len(),
{
    if parts.len() > 0 {
        let rest = parts.drop_first();
        if parts[0].is_public {
            lemma_body_codes_public(rest, sid + 1);
            let pp = seq![parts[0]] + public_parts(rest);
            assert(pp[0] == parts[0]);
            assert(pp.drop_first() =~= public_parts(rest));
        } else {
            lemma_body_codes_public(rest, sid);
        }
    }
}

/// Private parts do not change the verifier wrapper of a rule: two rules with
/// the same public parts, in the same order, get the same verifier, or the same
/// error, wherever private parts stand among them.
pub proof fn lemma_private_parts_leave_verifier(
    max_header_size: usize,
    max_body_size: usize,
    parts1: Seq<BodyPartView>,
    parts2: Seq<BodyPartView>,
    id: usize,
    template: Seq<char>,
)
    requires
        public_parts(parts1) == public_parts(parts2),
    ensures
        verifier_code(max_header_size, max_body_size, parts1, id, template) == verifier_code(
            max_header_size,
            max_body_size,
            parts2,
            id,
            template,
        ),
{
    lemma_body_codes_public(parts1, 0);
    lemma_body_codes_public(parts2, 0);
}

/// The contracts whose ABI the relayer reads.
pub open spec fn abi_contracts() -> Seq<Seq<char>> {
    seq!["EmailWallet"@, "IERC20"@, "IManipulator"@]
}

/// Where the build output of contract `name` lies under the Solidity project,
/// and where the relayer reads its ABI.
pub open spec fn abi_copy(solidity: Seq<char>, relayer: Seq<char>, name: Seq<char>) -> (Seq<char>, Seq<char>) {
    (
        path_join(path_join(solidity, "out"@), name + ".sol/"@ + name + ".json"@),
        path_join(path_join(relayer, "configs"@), name + ".json"@),
    )
}

impl EntryConfig {
    /// For each contract of [`abi_contracts`], in order, the build output to
    /// read its ABI from and the relayer file to write it to (see [`abi_copy`]).
    pub fn abi_copy_plan(&self, solidity_project_path: &str, relayer_project_path: &str) -> (r: Vec<(String, String)>)
        ensures
            r@.len() == abi_contracts().len(),
            forall|i: int|
                0 <= i < r@.len() ==> ((#[trigger] r@[i]).0@, r@[i].1@) == abi_copy(
                    solidity_project_path@,
                    relayer_project_path@,
                    abi_contracts()[i],
                ),
    {
        let out = join_path(solidity_project_path, "out");
        let config = join_path(relayer_project_path, "configs");
        let names = ["EmailWallet", "IERC20", "IManipulator"];
        let mut r: Vec<(String, String)> = Vec::new();
        let mut k: usize = 0;
        while k < 3
            invariant
                k <= 3,
                r@.len() == k,
                names@.len() == 3,
                names@[0]@ == "EmailWallet"@,
                names@[1]@ == "IERC20"@,
                names@[2]@ == "IManipulator"@,
                out@ == path_join(solidity_project_path@, "out"@),
                config@ == path_join(relayer_project_path@, "configs"@),
                forall|i: int|
                    0 <= i < k ==> ((#[trigger] r@[i]).0@, r@[i].1@) == abi_copy(
                        solidity_project_path@,
                        relayer_project_path@,
                        abi_contracts()[i],
                    ),
            decreases 3 - k,
        {
            let name = names[k];
            let mut build = String::from_str(name);
            build.append(".sol/");
            build.append(name);
            build.append(".json");
            let mut abi = String::from_str(name);
            abi.append(".json");
            let from = join_path(out.as_str(), build.as_str());
            let to = join_path(config.as_str(), abi.as_str());
            r.push((from, to));
            k = k + 1;
        }
        r
    }
}

/// The ABI in the build output of a contract: its `abi` field, as compact
/// JSON text (see [`json_field_text`]). `None` when the output is not JSON,
/// `Some(None)` when it has no `abi` field.
pub fn abi_text_of(build_output: &str) -> (r: Option<Option<String>>)
    ensures
        match r {
            None => json_field_text(build_output@, seq!['a', 'b', 'i']) is None,
            Some(None) => json_field_text(build_output@, seq!['a', 'b', 'i']) == Some(None::<Seq<char>>),
            Some(Some(s)) => json_field_text(build_output@, seq!['a', 'b', 'i']) == Some(Some(s@)),
        },
{
    proof {
        reveal_strlit("abi");
    }
    assert("abi"@ =~= seq!['a', 'b', 'i']);
    json_field_to_string(build_output, "abi")
}

} // verus!
