use crate::entry_config::EntryConfig;
use crate::json::strings_view;
use crate::text::{decimal, decimal_string, join_path, lemma_path_join_suffix, path_join};
use crate::vrm::entry_config::{parts_view, BodyPartView};
use crate::vrm::gen_relayer_configs::{
    id_file_name, join_all, join_paths, lemma_public_positions_valid, manipulation_def,
    manipulation_def_for, nested_strings_view, public_part_defs, public_parts_typed,
    public_positions, public_types, substr_regex_pair, ManipulationDef,
};
use vstd::prelude::*;

verus! {

/// The fields of the email-verification circuit parameters that a rule's
/// configuration fills in, in the form with one body regex file; the other
/// fields pass through unchanged.
#[derive(Debug, Clone)]
pub struct AppConfigParams {
    pub header_max_byte_size: usize,
    pub body_max_byte_size: usize,
    pub bodyhash_regex_filepath: String,
    pub bodyhash_substr_filepath: String,
    pub header_regex_filepathes: Vec<String>,
    pub header_substr_filepathes: Vec<String>,
    pub body_regex_filepath: String,
    pub body_substr_filepathes: Vec<String>,
    pub body_substr_regexes: Vec<Vec<String>>,
}

/// The mathematical form of [`AppConfigParams`].
pub struct AppParamsView {
    pub header_max_byte_size: usize,
    pub body_max_byte_size: usize,
    pub bodyhash_regex_filepath: Seq<char>,
    pub bodyhash_substr_filepath: Seq<char>,
    pub header_regex_filepathes: Seq<Seq<char>>,
    pub header_substr_filepathes: Seq<Seq<char>>,
    pub body_regex_filepath: Seq<char>,
    pub body_substr_filepathes: Seq<Seq<char>>,
    pub body_substr_regexes: Seq<Seq<Seq<char>>>,
}

impl View for AppConfigParams {
    type V = AppParamsView;

    open spec fn view(&self) -> AppParamsView {
        AppParamsView {
            header_max_byte_size: self.header_max_byte_size,
            body_max_byte_size: self.body_max_byte_size,
            bodyhash_regex_filepath: self.bodyhash_regex_filepath@,
            bodyhash_substr_filepath: self.bodyhash_substr_filepath@,
            header_regex_filepathes: strings_view(self.header_regex_filepathes@),
            header_substr_filepathes: strings_view(self.header_substr_filepathes@),
            body_regex_filepath: self.body_regex_filepath@,
            body_substr_filepathes: strings_view(self.body_substr_filepathes@),
            body_substr_regexes: nested_strings_view(self.body_substr_regexes@),
        }
    }
}

/// `body_id<id>_allstr.txt`
pub open spec fn allstr_file(id: usize) -> Seq<char> {
    "body_id"@ + decimal(id as nat) + "_allstr.txt"@
}

/// `body_id<id>_substr_<n>.txt`
pub open spec fn substr_file(id: usize, n: nat) -> Seq<char> {
    "body_id"@ + decimal(id as nat) + "_substr_"@ + decimal(n) + ".txt"@
}

/// `body_id<id>_substr_<n>.txt`
fn substr_file_name(id: usize, n: usize) -> (r: String)
    ensures
        r@ == substr_file(id, n as nat),
{
    let mut s = String::from_str("body_id");
    let id_str = decimal_string(id);
    s.append(id_str.as_str());
    s.append("_substr_");
    let n_str = decimal_string(n);
    s.append(n_str.as_str());
    s.append(".txt");
    s
}

/// The circuit parameters of the rule with parts `parts`, id `id` and body
/// limit `max_body_size`: the size limits set, the bodyhash and header file
/// paths made absolute under `pwd`, the body regex file set, and for each
/// public part its substring file and regex pair appended.
pub open spec fn filled_app_params(
    p: AppParamsView,
    parts: Seq<BodyPartView>,
    id: usize,
    config: Seq<char>,
    pwd: Seq<char>,
    max_header_size: usize,
    max_body_size: usize,
) -> AppParamsView {
    let pos = public_positions(parts);
    AppParamsView {
        header_max_byte_size: max_header_size,
        body_max_byte_size: max_body_size,
        bodyhash_regex_filepath: path_join(pwd, p.bodyhash_regex_filepath),
        bodyhash_substr_filepath: path_join(pwd, p.bodyhash_substr_filepath),
        header_regex_filepathes: join_all(pwd, p.header_regex_filepathes),
        header_substr_filepathes: join_all(pwd, p.header_substr_filepathes),
        body_regex_filepath: path_join(config, allstr_file(id)),
        body_substr_filepathes: p.body_substr_filepathes + Seq::new(
            pos.len(),
            |j: int| path_join(config, substr_file(id, j as nat)),
        ),
        body_substr_regexes: p.body_substr_regexes + pos.map_values(|i: int| substr_regex_pair(parts, i)),
    }
}

impl EntryConfig {
    /// The files that the regex generator writes for rule `id`: the whole-body
    /// regex file in the `configs` directory of the relayer project, and one
    /// substring file name per public part, relative.
    pub fn gen_regex_files_for_one_rule(&self, id: usize, relayer_project_path: &str) -> (r: (String, Vec<String>))
        requires
            self.rules@.contains_key(id),
        ensures
            r.0@ == path_join(path_join(relayer_project_path@, "configs"@), allstr_file(id)),
            strings_view(r.1@) == Seq::new(
                public_positions(self.rules_view()[id].parts).len(),
                |j: int| substr_file(id, j as nat),
            ),
    {
        let config = join_path(relayer_project_path, "configs");
        let allstr_name = id_file_name("body_id", id, "_allstr.txt");
        let allstr = join_path(config.as_str(), allstr_name.as_str());
        let rule = self.rule(id);
        let ghost pv = rule.parts@.map_values(|p: crate::vrm::entry_config::BodyPartConfig| p@);
        let mut paths: Vec<String> = Vec::new();
        let mut num_public_part: usize = 0;
        let mut k: usize = 0;
        while k < rule.parts.len()
            invariant
                pv == parts_view(rule.parts@),
                pv == self.rules_view()[id].parts,
                k <= rule.parts@.len(),
                num_public_part == public_positions(pv.take(k as int)).len(),
                num_public_part <= k,
                strings_view(paths@) =~= Seq::new(num_public_part as nat, |j: int| substr_file(id, j as nat)),
            decreases rule.parts.len() - k,
        {
            assert(pv.take(k + 1).drop_last() =~= pv.take(k as int));
            assert(pv[k as int] == rule.parts@[k as int]@);
            if rule.parts[k].is_public {
                let name = substr_file_name(id, num_public_part);
                let ghost p0 = paths@;
                paths.push(name);
                assert(strings_view(paths@) =~= strings_view(p0).push(name@));
                num_public_part = num_public_part + 1;
            }
            k = k + 1;
        }
        assert(pv.take(k as int) =~= pv);
        (allstr, paths)
    }

    /// Fills the circuit parameters of rule `id` (see [`filled_app_params`]) and
    /// returns the relayer's definition of the rule, whose files lie in the
    /// `configs` directory of the relayer project; `pwd` is the working directory.
    pub fn gen_config_files_for_one_rule(
        &self,
        id: usize,
        relayer_project_path: &str,
        pwd: &str,
        app_params: &mut AppConfigParams,
    ) -> (def: ManipulationDef)
        requires
            self.rules@.contains_key(id),
            public_parts_typed(self.rules_view()[id].parts),
        ensures
            final(app_params)@ == filled_app_params(
                old(app_params)@,
                self.rules_view()[id].parts,
                id,
                path_join(relayer_project_path@, "configs"@),
                pwd@,
                self.max_header_size,
                self.rules_view()[id].max_byte_size,
            ),
            def@ == manipulation_def(
                id,
                path_join(relayer_project_path@, "configs"@),
                self.max_header_size,
                self.rules_view()[id].max_byte_size,
                public_types(self.rules_view()[id].parts),
            ),
    {
        let config = join_path(relayer_project_path, "configs");
        let config_path = config.as_str();
        let rule = self.rule(id);
        let ghost p0 = app_params@;
        app_params.header_max_byte_size = self.max_header_size;
        app_params.body_max_byte_size = rule.max_byte_size;
        app_params.bodyhash_regex_filepath = join_path(pwd, app_params.bodyhash_regex_filepath.as_str());
        app_params.bodyhash_substr_filepath = join_path(pwd, app_params.bodyhash_substr_filepath.as_str());
        app_params.header_regex_filepathes = join_paths(pwd, &app_params.header_regex_filepathes);
        app_params.header_substr_filepathes = join_paths(pwd, &app_params.header_substr_filepathes);
        let allstr_name = id_file_name("body_id", id, "_allstr.txt");
        app_params.body_regex_filepath = join_path(config_path, allstr_name.as_str());
        let ghost pv = parts_view(rule.parts@);
        let (mut regexes, types) = public_part_defs(&rule.parts);
        proof {
            lemma_public_positions_valid(pv);
        }
        let ghost substr_paths0 = strings_view(app_params.body_substr_filepathes@);
        let mut n: usize = 0;
        while n < types.len()
            invariant
                n <= types@.len(),
                strings_view(app_params.body_substr_filepathes@) =~= substr_paths0 + Seq::new(
                    n as nat,
                    |j: int| path_join(config_path@, substr_file(id, j as nat)),
                ),
                app_params.header_max_byte_size == self.max_header_size,
                app_params.body_max_byte_size == rule.max_byte_size,
                app_params.bodyhash_regex_filepath@ == path_join(pwd@, p0.bodyhash_regex_filepath),
                app_params.bodyhash_substr_filepath@ == path_join(pwd@, p0.bodyhash_substr_filepath),
                strings_view(app_params.header_regex_filepathes@) == join_all(pwd@, p0.header_regex_filepathes),
                strings_view(app_params.header_substr_filepathes@) == join_all(pwd@, p0.header_substr_filepathes),
                app_params.body_regex_filepath@ == path_join(config_path@, allstr_file(id)),
                nested_strings_view(app_params.body_substr_regexes@) == p0.body_substr_regexes,
            decreases types.len() - n,
        {
            let ghost s0 = app_params.body_substr_filepathes@;
            let name = substr_file_name(id, n);
            let substr_path = join_path(config_path, name.as_str());
            app_params.body_substr_filepathes.push(substr_path);
            assert(strings_view(app_params.body_substr_filepathes@) =~= strings_view(s0).push(
                path_join(config_path@, substr_file(id, n as nat)),
            ));
            n = n + 1;
        }
        let ghost regexes_added = nested_strings_view(regexes@);
        let ghost before = nested_strings_view(app_params.body_substr_regexes@);
        app_params.body_substr_regexes.append(&mut regexes);
        assert(nested_strings_view(app_params.body_substr_regexes@) =~= before + regexes_added);
        manipulation_def_for(
            id,
            config_path,
            app_params.header_max_byte_size,
            app_params.body_max_byte_size,
            types,
        )
    }
}


/// The circuit configuration of a rule points at the whole-body regex file that
/// the regex generator writes, and at one substring file per public part whose
/// path ends with the name the generator gives that part's file.
pub proof fn lemma_config_points_at_regex_files(
    p: AppParamsView,
    parts: Seq<BodyPartView>,
    id: usize,
    relayer_project_path: Seq<char>,
    pwd: Seq<char>,
    max_header_size: usize,
    max_body_size: usize,
)
    ensures
        ({
            let config = path_join(relayer_project_path, "configs"@);
            let filled = filled_app_params(p, parts, id, config, pwd, max_header_size, max_body_size);
            let n = p.body_substr_filepathes.len();
            &&& filled.body_regex_filepath == path_join(config, allstr_file(id))
            &&& filled.body_substr_filepathes.len() == n + public_positions(parts).len()
            &&& forall|j: int|
                0 <= j < public_positions(parts).len() ==> {
                    let path = #[trigger] filled.body_substr_filepathes[n + j];
                    &&& path.len() >= substr_file(id, j as nat).len()
                    &&& path.skip(path.len() - substr_file(id, j as nat).len()) == substr_file(id, j as nat)
                }
        }),
{
    let config = path_join(relayer_project_path, "configs"@);
    let filled = filled_app_params(p, parts, id, config, pwd, max_header_size, max_body_size);
    let n = p.body_substr_filepathes.len();
    assert forall|j: int| 0 <= j < public_positions(parts).len() implies {
        let path = #[trigger] filled.body_substr_filepathes[n + j];
        &&& path.len() >= substr_file(id, j as nat).len()
        &&& path.skip(path.len() - substr_file(id, j as nat).len()) == substr_file(id, j as nat)
    } by {
        lemma_path_join_suffix(config, substr_file(id, j as nat));
        assert(filled.body_substr_filepathes[n + j] == path_join(config, substr_file(id, j as nat)));
    }
}

} // verus!
