use crate::text::{decimal, lemma_path_join_nested, path_join, join_path};
use crate::vrm::gen_relayer_configs::{
    agg_pk_file, app_circuit_file, app_pk_file, id_file_name, manipulation_def,
};
use crate::vrm::entry_config::SolidityType;
use vstd::prelude::*;

verus! {

/// The files that the proving-key generation of one rule reads and writes.
pub struct KeyPaths {
    pub app_params: String,
    pub agg_params: String,
    pub agg_circuit_config: String,
    pub app_circuit_config: String,
    pub email: String,
    pub app_pk: String,
    pub agg_pk: String,
    pub app_vk: String,
    pub agg_vk: String,
    pub bytecode: String,
    pub verifier_sol: String,
}

/// The mathematical form of [`KeyPaths`].
pub struct KeyPathsView {
    pub app_params: Seq<char>,
    pub agg_params: Seq<char>,
    pub agg_circuit_config: Seq<char>,
    pub app_circuit_config: Seq<char>,
    pub email: Seq<char>,
    pub app_pk: Seq<char>,
    pub agg_pk: Seq<char>,
    pub app_vk: Seq<char>,
    pub agg_vk: Seq<char>,
    pub bytecode: Seq<char>,
    pub verifier_sol: Seq<char>,
}

impl View for KeyPaths {
    type V = KeyPathsView;

    open spec fn view(&self) -> KeyPathsView {
        KeyPathsView {
            app_params: self.app_params@,
            agg_params: self.agg_params@,
            agg_circuit_config: self.agg_circuit_config@,
            app_circuit_config: self.app_circuit_config@,
            email: self.email@,
            app_pk: self.app_pk@,
            agg_pk: self.agg_pk@,
            app_vk: self.app_vk@,
            agg_vk: self.agg_vk@,
            bytecode: self.bytecode@,
            verifier_sol: self.verifier_sol@,
        }
    }
}

/// The key files of rule `id` when it is added to existing projects: the
/// relayer's files in its `configs` directory (the application proving key
/// under `relayer/configs` inside the relayer project), the example email
/// under the root, and the verifier contract in the Solidity project.
pub open spec fn added_rule_key_paths(root: Seq<char>, solidity: Seq<char>, relayer: Seq<char>, id: usize) -> KeyPathsView {
    let d = decimal(id as nat);
    KeyPathsView {
        app_params: path_join(relayer, "configs/app_params.bin"@),
        agg_params: path_join(relayer, "configs/agg_params.bin"@),
        agg_circuit_config: path_join(relayer, "configs/agg_circuit.config"@),
        app_circuit_config: path_join(relayer, "configs/app_circuit_id"@ + d + ".config"@),
        email: path_join(root, "example_emails/email_id"@ + d + ".eml"@),
        app_pk: path_join(relayer, "relayer/configs/app_"@ + d + ".pk"@),
        agg_pk: path_join(relayer, "configs/agg_"@ + d + ".pk"@),
        app_vk: path_join(relayer, "configs/app_"@ + d + ".vk"@),
        agg_vk: path_join(relayer, "configs/agg_"@ + d + ".vk"@),
        bytecode: path_join(relayer, "configs/agg_verifier_id"@ + d + ".bin"@),
        verifier_sol: path_join(solidity, "src/rule"@ + d + "/Verifier.sol"@),
    }
}

/// The key files of rule `id` during the first setup, all under the working
/// directory `pwd`: the relayer's in `relayer/configs`, the example email in
/// `emails`, the verifier contract in `email-wallet-contracts`.
pub open spec fn setup_key_paths(pwd: Seq<char>, id: usize) -> KeyPathsView {
    let d = decimal(id as nat);
    KeyPathsView {
        app_params: path_join(pwd, "relayer/configs/app_params.bin"@),
        agg_params: path_join(pwd, "relayer/configs/agg_params.bin"@),
        agg_circuit_config: path_join(pwd, "relayer/configs/agg_circuit.config"@),
        app_circuit_config: path_join(pwd, "relayer/configs/app_circuit_id"@ + d + ".config"@),
        email: path_join(pwd, "emails/email_id"@ + d + ".eml"@),
        app_pk: path_join(pwd, "relayer/configs/app_"@ + d + ".pk"@),
        agg_pk: path_join(pwd, "relayer/configs/agg_"@ + d + ".pk"@),
        app_vk: path_join(pwd, "relayer/configs/app_"@ + d + ".vk"@),
        agg_vk: path_join(pwd, "relayer/configs/agg_"@ + d + ".vk"@),
        bytecode: path_join(pwd, "relayer/configs/agg_verifier_id"@ + d + ".bin"@),
        verifier_sol: path_join(pwd, "email-wallet-contracts/src/rule"@ + d + "/Verifier.sol"@),
    }
}

/// `prefix`, the decimal id and `suffix`, joined onto `base`.
fn id_path(base: &str, prefix: &str, id: usize, suffix: &str) -> (r: String)
    ensures
        r@ == path_join(base@, prefix@ + decimal(id as nat) + suffix@),
{
    let name = id_file_name(prefix, id, suffix);
    join_path(base, name.as_str())
}

impl KeyPaths {
    /// The key files of rule `id` added to existing projects (see
    /// [`added_rule_key_paths`]).
    pub fn for_added_rule(root: &str, solidity: &str, relayer: &str, id: usize) -> (k: KeyPaths)
        ensures
            k@ == added_rule_key_paths(root@, solidity@, relayer@, id),
    {
        KeyPaths {
            app_params: join_path(relayer, "configs/app_params.bin"),
            agg_params: join_path(relayer, "configs/agg_params.bin"),
            agg_circuit_config: join_path(relayer, "configs/agg_circuit.config"),
            app_circuit_config: id_path(relayer, "configs/app_circuit_id", id, ".config"),
            email: id_path(root, "example_emails/email_id", id, ".eml"),
            app_pk: id_path(relayer, "relayer/configs/app_", id, ".pk"),
            agg_pk: id_path(relayer, "configs/agg_", id, ".pk"),
            app_vk: id_path(relayer, "configs/app_", id, ".vk"),
            agg_vk: id_path(relayer, "configs/agg_", id, ".vk"),
            bytecode: id_path(relayer, "configs/agg_verifier_id", id, ".bin"),
            verifier_sol: id_path(solidity, "src/rule", id, "/Verifier.sol"),
        }
    }

    /// The key files of rule `id` during the first setup (see
    /// [`setup_key_paths`]).
    pub fn for_setup(pwd: &str, id: usize) -> (k: KeyPaths)
        ensures
            k@ == setup_key_paths(pwd@, id),
    {
        KeyPaths {
            app_params: join_path(pwd, "relayer/configs/app_params.bin"),
            agg_params: join_path(pwd, "relayer/configs/agg_params.bin"),
            agg_circuit_config: join_path(pwd, "relayer/configs/agg_circuit.config"),
            app_circuit_config: id_path(pwd, "relayer/configs/app_circuit_id", id, ".config"),
            email: id_path(pwd, "emails/email_id", id, ".eml"),
            app_pk: id_path(pwd, "relayer/configs/app_", id, ".pk"),
            agg_pk: id_path(pwd, "relayer/configs/agg_", id, ".pk"),
            app_vk: id_path(pwd, "relayer/configs/app_", id, ".vk"),
            agg_vk: id_path(pwd, "relayer/configs/agg_", id, ".vk"),
            bytecode: id_path(pwd, "relayer/configs/agg_verifier_id", id, ".bin"),
            verifier_sol: id_path(pwd, "email-wallet-contracts/src/rule", id, "/Verifier.sol"),
        }
    }
}

/// When a rule is added, the aggregation proving key and the two circuit
/// configurations it generates are the files that the rule's manipulation
/// definition names.
pub proof fn lemma_added_rule_keys_match_def(
    root: Seq<char>,
    solidity: Seq<char>,
    relayer: Seq<char>,
    id: usize,
    max_header_size: usize,
    max_body_size: usize,
    types: Seq<SolidityType>,
)
    ensures
        ({
            let k = added_rule_key_paths(root, solidity, relayer, id);
            let def = manipulation_def(id, path_join(relayer, "configs"@), max_header_size, max_body_size, types);
            &&& k.agg_pk == def.agg_pk_path
            &&& k.app_circuit_config == def.app_config_path
            &&& k.agg_circuit_config == def.agg_config_path
        }),
{
    reveal_strlit("configs");
    reveal_strlit("configs/agg_");
    reveal_strlit("agg_");
    reveal_strlit(".pk");
    reveal_strlit("configs/app_circuit_id");
    reveal_strlit("app_circuit_id");
    reveal_strlit(".config");
    reveal_strlit("configs/agg_circuit.config");
    reveal_strlit("agg_circuit.config");
    let c = "configs"@;
    let d = decimal(id as nat);
    assert(c.last() == 's');
    lemma_path_join_nested(relayer, c, agg_pk_file(id));
    assert("configs/agg_"@ + d + ".pk"@ =~= c + seq!['/'] + agg_pk_file(id));
    lemma_path_join_nested(relayer, c, app_circuit_file(id));
    assert("configs/app_circuit_id"@ + d + ".config"@ =~= c + seq!['/'] + app_circuit_file(id));
    lemma_path_join_nested(relayer, c, "agg_circuit.config"@);
    assert("configs/agg_circuit.config"@ =~= c + seq!['/'] + "agg_circuit.config"@);
}

/// In the first setup, the proving keys and circuit configurations that are
/// generated for a rule are the files that its manipulation definition names,
/// when the relayer project is the `relayer` directory of the working
/// directory.
pub proof fn lemma_setup_keys_match_def(
    pwd: Seq<char>,
    id: usize,
    max_header_size: usize,
    max_body_size: usize,
    types: Seq<SolidityType>,
)
    ensures
        ({
            let k = setup_key_paths(pwd, id);
            let config = path_join(path_join(pwd, "relayer"@), "configs"@);
            let def = manipulation_def(id, config, max_header_size, max_body_size, types);
            &&& k.app_pk == def.app_pk_path
            &&& k.agg_pk == def.agg_pk_path
            &&& k.app_circuit_config == def.app_config_path
            &&& k.agg_circuit_config == def.agg_config_path
        }),
{
    reveal_strlit("relayer");
    reveal_strlit("configs");
    reveal_strlit("relayer/configs/app_");
    reveal_strlit("relayer/configs/agg_");
    reveal_strlit("app_");
    reveal_strlit("agg_");
    reveal_strlit(".pk");
    reveal_strlit("relayer/configs/app_circuit_id");
    reveal_strlit("app_circuit_id");
    reveal_strlit(".config");
    reveal_strlit("relayer/configs/agg_circuit.config");
    reveal_strlit("agg_circuit.config");
    let r = "relayer"@;
    let c = "configs"@;
    let rc = r + seq!['/'] + c;
    let d = decimal(id as nat);
    assert(r.last() == 'r');
    assert(c.last() == 's');
    lemma_path_join_nested(pwd, r, c);
    assert(rc[0] == 'r');
    assert(rc.last() == 's');
    lemma_path_join_nested(pwd, rc, app_pk_file(id));
    assert("relayer/configs/app_"@ + d + ".pk"@ =~= rc + seq!['/'] + app_pk_file(id));
    lemma_path_join_nested(pwd, rc, agg_pk_file(id));
    assert("relayer/configs/agg_"@ + d + ".pk"@ =~= rc + seq!['/'] + agg_pk_file(id));
    lemma_path_join_nested(pwd, rc, app_circuit_file(id));
    assert("relayer/configs/app_circuit_id"@ + d + ".config"@ =~= rc + seq!['/'] + app_circuit_file(id));
    lemma_path_join_nested(pwd, rc, "agg_circuit.config"@);
    assert("relayer/configs/agg_circuit.config"@ =~= rc + seq!['/'] + "agg_circuit.config"@);
}


/// Joining two different relative paths onto the same base gives different paths.
proof fn lemma_path_join_distinct(base: Seq<char>, x: Seq<char>, y: Seq<char>)
    requires
        x.len() > 0,
        y.len() > 0,
        x[0] != '/',
        y[0] != '/',
        x != y,
    ensures
        path_join(base, x) != path_join(base, y),
{
    let p = if base.len() == 0 || base.last() == '/' {
        base
    } else {
        base + seq!['/']
    };
    assert(path_join(base, x) == p + x);
    assert(path_join(base, y) == p + y);
    if p + x == p + y {
        assert((p + x).skip(p.len() as int) =~= x);
        assert((p + y).skip(p.len() as int) =~= y);
    }
}

/// The first setup lays out a rule's key files as adding the rule does with the
/// relayer project at `relayer` in the working directory: the parameter files,
/// circuit configurations, aggregation key, verifying keys and verifier bytecode
/// are the same files.
pub proof fn lemma_setup_is_added_rule_layout(pwd: Seq<char>, root: Seq<char>, solidity: Seq<char>, id: usize)
    ensures
        ({
            let s = setup_key_paths(pwd, id);
            let a = added_rule_key_paths(root, solidity, path_join(pwd, "relayer"@), id);
            &&& s.app_params == a.app_params
            &&& s.agg_params == a.agg_params
            &&& s.agg_circuit_config == a.agg_circuit_config
            &&& s.app_circuit_config == a.app_circuit_config
            &&& s.agg_pk == a.agg_pk
            &&& s.app_vk == a.app_vk
            &&& s.agg_vk == a.agg_vk
            &&& s.bytecode == a.bytecode
        }),
{
    reveal_strlit("relayer");
    reveal_strlit("relayer/configs/app_params.bin");
    reveal_strlit("configs/app_params.bin");
    reveal_strlit("relayer/configs/agg_params.bin");
    reveal_strlit("configs/agg_params.bin");
    reveal_strlit("relayer/configs/agg_circuit.config");
    reveal_strlit("configs/agg_circuit.config");
    reveal_strlit("relayer/configs/app_circuit_id");
    reveal_strlit("configs/app_circuit_id");
    reveal_strlit("relayer/configs/agg_");
    reveal_strlit("configs/agg_");
    reveal_strlit("relayer/configs/app_");
    reveal_strlit("configs/app_");
    reveal_strlit("relayer/configs/agg_verifier_id");
    reveal_strlit("configs/agg_verifier_id");
    let r = "relayer"@;
    let d = decimal(id as nat);
    assert(r.last() == 'r');
    let x1 = "configs/app_params.bin"@;
    let x2 = "configs/agg_params.bin"@;
    let x3 = "configs/agg_circuit.config"@;
    let x4 = "configs/app_circuit_id"@ + d + ".config"@;
    let x5 = "configs/agg_"@ + d + ".pk"@;
    let x6 = "configs/app_"@ + d + ".vk"@;
    let x7 = "configs/agg_"@ + d + ".vk"@;
    let x8 = "configs/agg_verifier_id"@ + d + ".bin"@;
    assert(x4[0] == 'c' && x5[0] == 'c' && x6[0] == 'c' && x7[0] == 'c' && x8[0] == 'c');
    lemma_path_join_nested(pwd, r, x1);
    assert("relayer/configs/app_params.bin"@ =~= r + seq!['/'] + x1);
    lemma_path_join_nested(pwd, r, x2);
    assert("relayer/configs/agg_params.bin"@ =~= r + seq!['/'] + x2);
    lemma_path_join_nested(pwd, r, x3);
    assert("relayer/configs/agg_circuit.config"@ =~= r + seq!['/'] + x3);
    lemma_path_join_nested(pwd, r, x4);
    assert("relayer/configs/app_circuit_id"@ + d + ".config"@ =~= r + seq!['/'] + x4);
    lemma_path_join_nested(pwd, r, x5);
    assert("relayer/configs/agg_"@ + d + ".pk"@ =~= r + seq!['/'] + x5);
    lemma_path_join_nested(pwd, r, x6);
    assert("relayer/configs/app_"@ + d + ".vk"@ =~= r + seq!['/'] + x6);
    lemma_path_join_nested(pwd, r, x7);
    assert("relayer/configs/agg_"@ + d + ".vk"@ =~= r + seq!['/'] + x7);
    lemma_path_join_nested(pwd, r, x8);
    assert("relayer/configs/agg_verifier_id"@ + d + ".bin"@ =~= r + seq!['/'] + x8);
}

/// The application and the aggregation parameters are different files, in the
/// first setup and when a rule is added, and so are the application and the
/// aggregation proving keys and verifying keys.
pub proof fn lemma_key_files_distinct(pwd: Seq<char>, root: Seq<char>, solidity: Seq<char>, relayer: Seq<char>, id: usize)
    ensures
        setup_key_paths(pwd, id).app_params != setup_key_paths(pwd, id).agg_params,
        setup_key_paths(pwd, id).app_pk != setup_key_paths(pwd, id).agg_pk,
        setup_key_paths(pwd, id).app_vk != setup_key_paths(pwd, id).agg_vk,
        added_rule_key_paths(root, solidity, relayer, id).app_params != added_rule_key_paths(root, solidity, relayer, id).agg_params,
        added_rule_key_paths(root, solidity, relayer, id).app_vk != added_rule_key_paths(root, solidity, relayer, id).agg_vk,
{
    reveal_strlit("relayer/configs/app_params.bin");
    reveal_strlit("relayer/configs/agg_params.bin");
    reveal_strlit("configs/app_params.bin");
    reveal_strlit("configs/agg_params.bin");
    reveal_strlit("relayer/configs/agg_");
    reveal_strlit("relayer/configs/app_");
    reveal_strlit("configs/agg_");
    reveal_strlit("configs/app_");
    let d = decimal(id as nat);
    let s1 = "relayer/configs/app_params.bin"@;
    let s2 = "relayer/configs/agg_params.bin"@;
    assert(s1[17] != s2[17]);
    lemma_path_join_distinct(pwd, s1, s2);
    let p1 = "relayer/configs/app_"@ + d + ".pk"@;
    let p2 = "relayer/configs/agg_"@ + d + ".pk"@;
    assert(p1[17] != p2[17]);
    lemma_path_join_distinct(pwd, p1, p2);
    let v1 = "relayer/configs/app_"@ + d + ".vk"@;
    let v2 = "relayer/configs/agg_"@ + d + ".vk"@;
    assert(v1[17] != v2[17]);
    lemma_path_join_distinct(pwd, v1, v2);
    let a1 = "configs/app_params.bin"@;
    let a2 = "configs/agg_params.bin"@;
    assert(a1[9] != a2[9]);
    lemma_path_join_distinct(relayer, a1, a2);
    let w1 = "configs/app_"@ + d + ".vk"@;
    let w2 = "configs/agg_"@ + d + ".vk"@;
    assert(w1[9] != w2[9]);
    lemma_path_join_distinct(relayer, w1, w2);
}

} // verus!
