use crate::json::strings_view;
use crate::text::{decimal, decimal_string, join_path, path_join};
use crate::vrm::entry_config::{parts_view, BodyPartConfig, BodyPartView, EntryConfig, SolidityType};
use std::collections::HashMap;
use vstd::prelude::*;

verus! {

/// The fields of the email-verification circuit parameters that a rule's
/// configuration fills in; the other fields pass through unchanged.
#[derive(Debug, Clone)]
pub struct AppConfigParams {
    pub header_max_byte_size: usize,
    pub body_max_byte_size: usize,
    pub bodyhash_regex_filepath: String,
    pub bodyhash_substr_filepath: String,
    pub header_regex_filepathes: Vec<String>,
    pub header_substr_filepathes: Vec<String>,
    pub body_regex_filepathes: Vec<String>,
    pub body_substr_filepathes: Vec<String>,
    pub body_substr_regexes: Vec<Vec<String>>,
}

/// Where the relayer finds the circuit files of a rule, its size limits, and
/// the Solidity types of its public parts.
#[derive(Debug, Clone)]
pub struct ManipulationDef {
    pub app_config_path: String,
    pub agg_config_path: String,
    pub app_pk_path: String,
    pub agg_pk_path: String,
    pub max_header_size: usize,
    pub max_body_size: usize,
    pub types: Vec<SolidityType>,
}

/// The indexes of the public parts among `parts`, in order.
pub open spec fn public_positions(parts: Seq<BodyPartView>) -> Seq<int>
    decreases parts.len(),
{
    if parts.len() == 0 {
        seq![]
    } else {
        let p = public_positions(parts.drop_last());
        if parts.last().is_public {
            p.push(parts.len() - 1)
        } else {
            p
        }
    }
}

/// Whether every public part has a Solidity type.
pub open spec fn public_parts_typed(parts: Seq<BodyPartView>) -> bool {
    forall|i: int| 0 <= i < parts.len() && (#[trigger] parts[i]).is_public ==> parts[i].solidity is Some
}

/// The regex that locates the public part `idx`: the regex of the part before
/// it (if any), its own, and that of the part after it (if any).
pub open spec fn context_regex(parts: Seq<BodyPartView>, idx: int) -> Seq<char> {
    (if idx != 0 { parts[idx - 1].regex_def } else { seq![] }) + parts[idx].regex_def + (if idx
        != parts.len() - 1 {
        parts[idx + 1].regex_def
    } else {
        seq![]
    })
}

/// The pair of regexes given for the public part `idx`: the one that locates
/// it, and its own.
pub open spec fn substr_regex_pair(parts: Seq<BodyPartView>, idx: int) -> Seq<Seq<char>> {
    seq![context_regex(parts, idx), parts[idx].regex_def]
}

pub open spec fn nested_strings_view(v: Seq<Vec<String>>) -> Seq<Seq<Seq<char>>> {
    v.map_values(|w: Vec<String>| strings_view(w@))
}

pub(crate) proof fn lemma_public_positions_take(parts: Seq<BodyPartView>, k: int)
    requires
        0 <= k < parts.len(),
    ensures
        public_positions(parts.take(k + 1)) == if parts[k].is_public {
            public_positions(parts.take(k)).push(k)
        } else {
            public_positions(parts.take(k))
        },
{
    assert(parts.take(k + 1).drop_last() =~= parts.take(k));
}

/// Every entry of `public_positions` indexes a public part, in increasing order.
pub proof fn lemma_public_positions_valid(parts: Seq<BodyPartView>)
    ensures
        forall|j: int| 0 <= j < public_positions(parts).len() ==> 0 <= #[trigger] public_positions(parts)[j] < parts.len()
            && parts[public_positions(parts)[j]].is_public,
        public_positions(parts).len() <= parts.len(),
    decreases parts.len(),
{
    if parts.len() > 0 {
        lemma_public_positions_valid(parts.drop_last());
    }
}

/// The regex pairs and Solidity types of the public parts, in order.
pub fn public_part_defs(parts: &Vec<BodyPartConfig>) -> (r: (Vec<Vec<String>>, Vec<SolidityType>))
    requires
        public_parts_typed(parts_view(parts@)),
    ensures
        nested_strings_view(r.0@) == public_positions(parts_view(parts@)).map_values(
            |i: int| substr_regex_pair(parts_view(parts@), i),
        ),
        r.1@ == public_positions(parts_view(parts@)).map_values(
            |i: int| parts_view(parts@)[i].solidity->0,
        ),
{
    let ghost pv = parts_view(parts@);
    let mut regexes: Vec<Vec<String>> = Vec::new();
    let mut types: Vec<SolidityType> = Vec::new();
    let mut k: usize = 0;
    while k < parts.len()
        invariant
            pv == parts_view(parts@),
            public_parts_typed(pv),
            k <= parts@.len(),
            nested_strings_view(regexes@) == public_positions(pv.take(k as int)).map_values(
                |i: int| substr_regex_pair(pv, i),
            ),
            types@ == public_positions(pv.take(k as int)).map_values(|i: int| pv[i].solidity->0),
        decreases parts.len() - k,
    {
        proof {
            lemma_public_positions_take(pv, k as int);
        }
        let part = &parts[k];
        assert(pv[k as int] == part@);
        if part.is_public {
            let mut def = String::new();
            if k != 0 {
                def.append(parts[k - 1].regex_def.as_str());
            }
            def.append(part.regex_def.as_str());
            if k != parts.len() - 1 {
                def.append(parts[k + 1].regex_def.as_str());
            }
            proof {
                if k != 0 {
                    assert(pv[k - 1] == parts@[k - 1]@);
                }
                if k != parts.len() - 1 {
                    assert(pv[k + 1] == parts@[k + 1]@);
                }
                assert(def@ =~= context_regex(pv, k as int));
            }
            let mut pair: Vec<String> = Vec::new();
            pair.push(def);
            pair.push(part.regex_def.clone());
            assert(strings_view(pair@) =~= substr_regex_pair(pv, k as int));
            let ghost old_regexes = regexes@;
            regexes.push(pair);
            let t = match part.solidity {
                Some(t) => t,
                None => {
                    assert(false);
                    SolidityType::String
                },
            };
            types.push(t);
            proof {
                assert(nested_strings_view(regexes@) =~= nested_strings_view(old_regexes).push(substr_regex_pair(pv, k as int)));
                assert(nested_strings_view(regexes@) =~= public_positions(pv.take(k + 1)).map_values(
                    |i: int| substr_regex_pair(pv, i),
                ));
                assert(types@ =~= public_positions(pv.take(k + 1)).map_values(|i: int| pv[i].solidity->0));
            }
        } else {
            proof {
                assert(nested_strings_view(regexes@) =~= public_positions(pv.take(k + 1)).map_values(
                    |i: int| substr_regex_pair(pv, i),
                ));
                assert(types@ =~= public_positions(pv.take(k + 1)).map_values(|i: int| pv[i].solidity->0));
            }
        }
        k = k + 1;
    }
    assert(pv.take(k as int) =~= pv);
    (regexes, types)
}

/// The mathematical form of [`AppConfigParams`].
pub struct AppParamsView {
    pub header_max_byte_size: usize,
    pub body_max_byte_size: usize,
    pub bodyhash_regex_filepath: Seq<char>,
    pub bodyhash_substr_filepath: Seq<char>,
    pub header_regex_filepathes: Seq<Seq<char>>,
    pub header_substr_filepathes: Seq<Seq<char>>,
    pub body_regex_filepathes: Seq<Seq<char>>,
    pub body_substr_filepathes: Seq<Seq<char>>,
    pub body_substr_regexes: Seq<Seq<Seq<char>>>,
}

impl View for AppConfigParams {
    type V = AppParamsView;

    open spec fn view(&self) -> AppParamsView {
        AppParamsView {
            header_max_byte_size: self.header_max_byte_size,
            body_max_byte_size: self.body_max_byte_size,
            bodyhash_regex_filepath: self.bodyhash_regex_filepath@,
            bodyhash_substr_filepath: self.bodyhash_substr_filepath@,
            header_regex_filepathes: strings_view(self.header_regex_filepathes@),
            header_substr_filepathes: strings_view(self.header_substr_filepathes@),
            body_regex_filepathes: strings_view(self.body_regex_filepathes@),
            body_substr_filepathes: strings_view(self.body_substr_filepathes@),
            body_substr_regexes: nested_strings_view(self.body_substr_regexes@),
        }
    }
}

/// The mathematical form of [`ManipulationDef`].
pub struct ManipulationDefView {
    pub app_config_path: Seq<char>,
    pub agg_config_path: Seq<char>,
    pub app_pk_path: Seq<char>,
    pub agg_pk_path: Seq<char>,
    pub max_header_size: usize,
    pub max_body_size: usize,
    pub types: Seq<SolidityType>,
}

impl View for ManipulationDef {
    type V = ManipulationDefView;

    open spec fn view(&self) -> ManipulationDefView {
        ManipulationDefView {
            app_config_path: self.app_config_path@,
            agg_config_path: self.agg_config_path@,
            app_pk_path: self.app_pk_path@,
            agg_pk_path: self.agg_pk_path@,
            max_header_size: self.max_header_size,
            max_body_size: self.max_body_size,
            types: self.types@,
        }
    }
}

/// `regex_body_id<id>.txt`
pub open spec fn regex_body_file(id: usize) -> Seq<char> {
    "regex_body_id"@ + decimal(id as nat) + ".txt"@
}

/// `substr_body_id<id>_<n>.txt`
pub open spec fn substr_body_file(id: usize, n: nat) -> Seq<char> {
    "substr_body_id"@ + decimal(id as nat) + "_"@ + decimal(n) + ".txt"@
}

/// `app_circuit_id<id>.config`
pub open spec fn app_circuit_file(id: usize) -> Seq<char> {
    "app_circuit_id"@ + decimal(id as nat) + ".config"@
}

/// `app_<id>.pk`
pub open spec fn app_pk_file(id: usize) -> Seq<char> {
    "app_"@ + decimal(id as nat) + ".pk"@
}

/// `agg_<id>.pk`
pub open spec fn agg_pk_file(id: usize) -> Seq<char> {
    "agg_"@ + decimal(id as nat) + ".pk"@
}

/// Each path of `paths` joined onto `base`.
pub open spec fn join_all(base: Seq<char>, paths: Seq<Seq<char>>) -> Seq<Seq<char>> {
    paths.map_values(|p: Seq<char>| path_join(base, p))
}

/// The circuit parameters of rule `parts` with id `id`: the size limits set,
/// the bodyhash and header file paths made absolute under `pwd`, and for each
/// public part the body regex file, its own substring file and its regex pair
/// appended.
pub open spec fn filled_app_params(
    p: AppParamsView,
    parts: Seq<BodyPartView>,
    id: usize,
    config: Seq<char>,
    pwd: Seq<char>,
    max_header_size: usize,
    max_body_size: usize,
) -> AppParamsView {
    let pos = public_positions(parts);
    AppParamsView {
        header_max_byte_size: max_header_size,
        body_max_byte_size: max_body_size,
        bodyhash_regex_filepath: path_join(pwd, p.bodyhash_regex_filepath),
        bodyhash_substr_filepath: path_join(pwd, p.bodyhash_substr_filepath),
        header_regex_filepathes: join_all(pwd, p.header_regex_filepathes),
        header_substr_filepathes: join_all(pwd, p.header_substr_filepathes),
        body_regex_filepathes: p.body_regex_filepathes + Seq::new(
            pos.len(),
            |j: int| path_join(config, regex_body_file(id)),
        ),
        body_substr_filepathes: p.body_substr_filepathes + Seq::new(
            pos.len(),
            |j: int| path_join(config, substr_body_file(id, j as nat)),
        ),
        body_substr_regexes: p.body_substr_regexes + pos.map_values(|i: int| substr_regex_pair(parts, i)),
    }
}

/// The relayer's definition of rule `id` whose configuration files are under `config`.
pub open spec fn manipulation_def(
    id: usize,
    config: Seq<char>,
    max_header_size: usize,
    max_body_size: usize,
    types: Seq<SolidityType>,
) -> ManipulationDefView {
    ManipulationDefView {
        app_config_path: path_join(config, app_circuit_file(id)),
        agg_config_path: path_join(config, "agg_circuit.config"@),
        app_pk_path: path_join(config, app_pk_file(id)),
        agg_pk_path: path_join(config, agg_pk_file(id)),
        max_header_size,
        max_body_size,
        types,
    }
}

/// The Solidity types of the public parts, in order.
pub open spec fn public_types(parts: Seq<BodyPartView>) -> Seq<SolidityType> {
    public_positions(parts).map_values(|i: int| parts[i].solidity->0)
}

/// Joins every path of `paths` onto `base`.
pub fn join_paths(base: &str, paths: &Vec<String>) -> (r: Vec<String>)
    ensures
        strings_view(r@) == join_all(base@, strings_view(paths@)),
{
    let mut r: Vec<String> = Vec::new();
    let mut k: usize = 0;
    while k < paths.len()
        invariant
            k <= paths@.len(),
            strings_view(r@) =~= join_all(base@, strings_view(paths@)).take(k as int),
        decreases paths.len() - k,
    {
        let joined = join_path(base, paths[k].as_str());
        let ghost r0 = r@;
        r.push(joined);
        assert(strings_view(paths@)[k as int] == paths@[k as int]@);
        assert(strings_view(r@) =~= strings_view(r0).push(joined@));
        assert(strings_view(r@) =~= join_all(base@, strings_view(paths@)).take(k + 1));
        k = k + 1;
    }
    assert(join_all(base@, strings_view(paths@)).take(k as int) =~= join_all(base@, strings_view(paths@)));
    r
}

/// `prefix`, the decimal id, and `suffix`.
pub(crate) fn id_file_name(prefix: &str, id: usize, suffix: &str) -> (r: String)
    ensures
        r@ == prefix@ + decimal(id as nat) + suffix@,
{
    let mut s = String::from_str(prefix);
    let d = decimal_string(id);
    s.append(d.as_str());
    s.append(suffix);
    s
}

/// The relayer's definition of rule `id` with configuration files under `config_path`.
pub fn manipulation_def_for(
    id: usize,
    config_path: &str,
    max_header_size: usize,
    max_body_size: usize,
    types: Vec<SolidityType>,
) -> (def: ManipulationDef)
    ensures
        def@ == manipulation_def(id, config_path@, max_header_size, max_body_size, types@),
{
    let app_config = id_file_name("app_circuit_id", id, ".config");
    let app_pk = id_file_name("app_", id, ".pk");
    let agg_pk = id_file_name("agg_", id, ".pk");
    ManipulationDef {
        app_config_path: join_path(config_path, app_config.as_str()),
        agg_config_path: join_path(config_path, "agg_circuit.config"),
        app_pk_path: join_path(config_path, app_pk.as_str()),
        agg_pk_path: join_path(config_path, agg_pk.as_str()),
        max_header_size,
        max_body_size,
        types,
    }
}

impl EntryConfig {
    /// Fills the circuit parameters of rule `id` (see [`filled_app_params`]) and
    /// returns the relayer's definition of the rule, whose files lie in the
    /// `configs` directory of the relayer project; `pwd` is the working directory.
    pub fn gen_config_files_for_one_rule(
        &self,
        id: usize,
        relayer_project_path: &str,
        pwd: &str,
        app_params: &mut AppConfigParams,
    ) -> (def: ManipulationDef)
        requires
            self.rules@.contains_key(id),
            public_parts_typed(self.rules_view()[id]),
        ensures
            final(app_params)@ == filled_app_params(
                old(app_params)@,
                self.rules_view()[id],
                id,
                path_join(relayer_project_path@, "configs"@),
                pwd@,
                self.max_header_size,
                self.max_body_size,
            ),
            def@ == manipulation_def(
                id,
                path_join(relayer_project_path@, "configs"@),
                self.max_header_size,
                self.max_body_size,
                public_types(self.rules_view()[id]),
            ),
    {
        let config = join_path(relayer_project_path, "configs");
        let config_path = config.as_str();
        let ghost p0 = app_params@;
        app_params.header_max_byte_size = self.max_header_size;
        app_params.body_max_byte_size = self.max_body_size;
        app_params.bodyhash_regex_filepath = join_path(pwd, app_params.bodyhash_regex_filepath.as_str());
        app_params.bodyhash_substr_filepath = join_path(pwd, app_params.bodyhash_substr_filepath.as_str());
        app_params.header_regex_filepathes = join_paths(pwd, &app_params.header_regex_filepathes);
        app_params.header_substr_filepathes = join_paths(pwd, &app_params.header_substr_filepathes);
        let parts = self.rule_parts(id);
        let ghost pv = parts_view(parts@);
        let (mut regexes, types) = public_part_defs(parts);
        proof {
            lemma_public_positions_valid(pv);
        }
        let regex_name = id_file_name("regex_body_id", id, ".txt");
        let regex_path = join_path(config_path, regex_name.as_str());
        let ghost regex_paths0 = strings_view(app_params.body_regex_filepathes@);
        let ghost substr_paths0 = strings_view(app_params.body_substr_filepathes@);
        let mut n: usize = 0;
        while n < types.len()
            invariant
                n <= types@.len(),
                types@.len() == public_positions(pv).len(),
                strings_view(app_params.body_regex_filepathes@) =~= regex_paths0 + Seq::new(
                    n as nat,
                    |j: int| path_join(config_path@, regex_body_file(id)),
                ),
                strings_view(app_params.body_substr_filepathes@) =~= substr_paths0 + Seq::new(
                    n as nat,
                    |j: int| path_join(config_path@, substr_body_file(id, j as nat)),
                ),
                regex_path@ == path_join(config_path@, regex_body_file(id)),
                app_params.header_max_byte_size == self.max_header_size,
                app_params.body_max_byte_size == self.max_body_size,
                app_params.bodyhash_regex_filepath@ == path_join(pwd@, p0.bodyhash_regex_filepath),
                app_params.bodyhash_substr_filepath@ == path_join(pwd@, p0.bodyhash_substr_filepath),
                strings_view(app_params.header_regex_filepathes@) == join_all(pwd@, p0.header_regex_filepathes),
                strings_view(app_params.header_substr_filepathes@) == join_all(pwd@, p0.header_substr_filepathes),
                nested_strings_view(app_params.body_substr_regexes@) == p0.body_substr_regexes,
            decreases types.len() - n,
        {
            let ghost r0 = app_params.body_regex_filepathes@;
            let ghost s0 = app_params.body_substr_filepathes@;
            app_params.body_regex_filepathes.push(regex_path.clone());
            assert(strings_view(app_params.body_regex_filepathes@) =~= strings_view(r0).push(regex_path@));
            let mut substr_name = String::from_str("substr_body_id");
            let id_str = decimal_string(id);
            substr_name.append(id_str.as_str());
            substr_name.append("_");
            let n_str = decimal_string(n);
            substr_name.append(n_str.as_str());
            substr_name.append(".txt");
            let substr_path = join_path(config_path, substr_name.as_str());
            assert(substr_name@ =~= substr_body_file(id, n as nat));
            app_params.body_substr_filepathes.push(substr_path);
            assert(strings_view(app_params.body_substr_filepathes@) =~= strings_view(s0).push(path_join(config_path@, substr_body_file(id, n as nat))));
            n = n + 1;
        }
        let ghost regexes_added = nested_strings_view(regexes@);
        let ghost before = nested_strings_view(app_params.body_substr_regexes@);
        app_params.body_substr_regexes.append(&mut regexes);
        assert(nested_strings_view(app_params.body_substr_regexes@) =~= before + regexes_added);
        let def = manipulation_def_for(
            id,
            config_path,
            app_params.header_max_byte_size,
            app_params.body_max_byte_size,
            types,
        );
        def
    }
}


/// `substr_body_id<id>_<n>`: the name under which the regex files of a rule
/// store the substring definitions of its `n`-th public part.
pub open spec fn substr_body_name(id: usize, n: nat) -> Seq<char> {
    "substr_body_id"@ + decimal(id as nat) + "_"@ + decimal(n)
}

impl EntryConfig {
    /// Where the regex files of rule `id` go, in the `configs` directory of the
    /// relayer project: the DFA file `regex_body_id<id>.txt`, then one substring
    /// definition file per public part (see [`substr_body_name`]).
    pub fn regex_file_paths(&self, id: usize, relayer_project_path: &str) -> (r: (String, Vec<String>))
        requires
            self.rules@.contains_key(id),
        ensures
            r.0@ == path_join(path_join(relayer_project_path@, "configs"@), regex_body_file(id)),
            strings_view(r.1@) == Seq::new(
                public_positions(self.rules_view()[id]).len(),
                |j: int| path_join(path_join(relayer_project_path@, "configs"@), substr_body_name(id, j as nat)),
            ),
    {
        let config = join_path(relayer_project_path, "configs");
        let regex_name = id_file_name("regex_body_id", id, ".txt");
        let regex_path = join_path(config.as_str(), regex_name.as_str());
        let parts = self.rule_parts(id);
        let ghost pv = parts_view(parts@);
        let mut substr_paths: Vec<String> = Vec::new();
        let mut k: usize = 0;
        assert(pv.take(0) =~= Seq::<BodyPartView>::empty());
        while k < parts.len()
            invariant
                pv == parts_view(parts@),
                k <= parts@.len(),
                substr_paths@.len() == public_positions(pv.take(k as int)).len(),
                public_positions(pv.take(k as int)).len() <= k,
                strings_view(substr_paths@) =~= Seq::new(
                    substr_paths@.len(),
                    |j: int| path_join(config@, substr_body_name(id, j as nat)),
                ),
            decreases parts.len() - k,
        {
            proof {
                lemma_public_positions_take(pv, k as int);
            }
            assert(pv[k as int] == parts@[k as int]@);
            if parts[k].is_public {
                let n = substr_paths.len();
                let name = id_file_name("substr_body_id", id, "_");
                let mut full = name;
                let n_str = decimal_string(n);
                full.append(n_str.as_str());
                assert(full@ =~= substr_body_name(id, n as nat));
                let path = join_path(config.as_str(), full.as_str());
                let ghost before = substr_paths@;
                substr_paths.push(path);
                assert(strings_view(substr_paths@) =~= strings_view(before).push(path@));
            }
            k = k + 1;
        }
        assert(pv.take(k as int) =~= pv);
        (regex_path, substr_paths)
    }
}

/// The circuit configuration of a rule points, for each public part, at the
/// DFA file that the rule's regex files are written to.
pub proof fn lemma_config_regex_paths_match(
    p: AppParamsView,
    parts: Seq<BodyPartView>,
    id: usize,
    relayer_project_path: Seq<char>,
    pwd: Seq<char>,
    max_header_size: usize,
    max_body_size: usize,
)
    ensures
        ({
            let config = path_join(relayer_project_path, "configs"@);
            let filled = filled_app_params(p, parts, id, config, pwd, max_header_size, max_body_size);
            &&& filled.body_regex_filepathes.len() == p.body_regex_filepathes.len() + public_positions(parts).len()
            &&& forall|j: int|
                p.body_regex_filepathes.len() <= j < filled.body_regex_filepathes.len() ==> #[trigger] filled.body_regex_filepathes[j]
                    == path_join(config, regex_body_file(id))
        }),
{
}

/// The relayer's definitions of all rules, by id.
pub struct ManipulationDefs {
    pub rules: HashMap<usize, ManipulationDef>,
}

impl ManipulationDefs {
    /// No definitions.
    pub fn new() -> (d: ManipulationDefs)
        ensures
            d.rules@ == Map::<usize, ManipulationDef>::empty(),
    {
        ManipulationDefs { rules: HashMap::new() }
    }

    /// Records the definition of rule `id`, in place of any earlier one; the
    /// other rules keep theirs.
    pub fn insert_rule(&mut self, id: usize, def: ManipulationDef)
        ensures
            final(self).rules@ == old(self).rules@.insert(id, def),
    {
        broadcast use vstd::std_specs::hash::group_hash_axioms;
        self.rules.insert(id, def);
    }
}

/// Recording the definition of a rule a second time, with a definition equal
/// to the first (as [`EntryConfig::gen_config_files_for_one_rule`] gives for
/// the same configuration, rule and paths), leaves the definitions as the
/// first recording left them: the rule is replaced, not added again.
pub proof fn lemma_record_rule_twice(
    defs: Map<usize, ManipulationDef>,
    id: usize,
    first: ManipulationDef,
    second: ManipulationDef,
)
    requires
        first@ == second@,
    ensures
        defs.insert(id, first).insert(id, second).map_values(|d: ManipulationDef| d@) == defs.insert(
            id,
            first,
        ).map_values(|d: ManipulationDef| d@),
{
    let a = defs.insert(id, first).insert(id, second).map_values(|d: ManipulationDef| d@);
    let b = defs.insert(id, first).map_values(|d: ManipulationDef| d@);
    assert(a =~= b);
}

/// The regex pairs of the public parts, in order (as [`public_part_defs`]
/// gives them): the `j`-th belongs to the `j`-th public part, at index `i`;
/// its first regex is that of the part before it (when `i > 0`), its own, and
/// that of the part after it (when there is one), and its second is its own.
pub proof fn lemma_public_pair_regexes(parts: Seq<BodyPartView>, j: int)
    requires
        0 <= j < public_positions(parts).len(),
    ensures
        ({
            let i = public_positions(parts)[j];
            let pair = public_positions(parts).map_values(|p: int| substr_regex_pair(parts, p))[j];
            &&& 0 <= i < parts.len()
            &&& parts[i].is_public
            &&& pair.len() == 2
            &&& pair[1] == parts[i].regex_def
            &&& pair[0] == (if i > 0 {
                parts[i - 1].regex_def
            } else {
                seq![]
            }) + parts[i].regex_def + (if i + 1 < parts.len() {
                parts[i + 1].regex_def
            } else {
                seq![]
            })
        }),
{
    lemma_public_positions_valid(parts);
}

} // verus!
