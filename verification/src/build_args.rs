//! What the arguments of a build change in the configuration of a project.
//!
//! Arguments take the highest precedence: what they say overrides what the project is configured
//! with.
use crate::ordered_map::{lists, ByteKey, OrderedMap};
use vstd::prelude::*;
use vstd::string::*;
use vstd::utf8::encode_utf8;

verus! {

/// Sends the imports that start with `name` to `path`.
pub struct Remapping {
    pub name: String,
    pub path: String,
}

/// The name of a remapping. Names are ordered by their bytes.
struct Name(String);

impl View for Name {
    type V = Seq<u8>;

    closed spec fn view(&self) -> Seq<u8> {
        encode_utf8(self.0@)
    }
}

impl ByteKey for Name {
    fn key_bytes(&self) -> (bytes: &[u8]) {
        self.0.as_str().as_bytes()
    }
}

/// The names of remappings, as bytes.
pub open spec fn names(remappings: Seq<Remapping>) -> Seq<Seq<u8>> {
    remappings.map_values(|remapping: Remapping| encode_utf8(remapping.name@))
}

/// Where each name leads. Of several remappings of a name the first one counts.
pub open spec fn first_paths(remappings: Seq<Remapping>) -> Map<Seq<u8>, String>
    decreases remappings.len(),
{
    if remappings.len() == 0 {
        Map::empty()
    } else {
        let earlier = first_paths(remappings.drop_last());
        let name = encode_utf8(remappings.last().name@);
        if earlier.contains_key(name) {
            earlier
        } else {
            earlier.insert(name, remappings.last().path)
        }
    }
}

/// Stacks the remappings of a project on those of the arguments: the result has each name once, in
/// the order of the names, and the arguments win.
pub fn stack_remappings(args: &[Remapping], configured: &[Remapping]) -> (stacked: Vec<Remapping>)
    ensures
        lists(names(stacked@), first_paths(args@ + configured@)),
        forall|i: int|
            0 <= i < stacked@.len() ==> (#[trigger] stacked@[i]).path == first_paths(
                args@ + configured@,
            )[encode_utf8(stacked@[i].name@)],
{
    let mut paths: OrderedMap<Name, String> = OrderedMap::new();
    let ghost all = args@ + configured@;
    let mut i: usize = 0;
    while i < args.len()
        invariant
            i <= args@.len(),
            all == args@ + configured@,
            paths@ == first_paths(all.take(i as int)),
        decreases args@.len() - i,
    {
        proof {
            assert(all.take(i + 1).drop_last() =~= all.take(i as int));
        }
        add_remapping(&mut paths, &args[i]);
        i = i + 1;
    }
    let mut j: usize = 0;
    while j < configured.len()
        invariant
            j <= configured@.len(),
            all == args@ + configured@,
            paths@ == first_paths(all.take(args@.len() + j)),
        decreases configured@.len() - j,
    {
        proof {
            assert(all.take(args@.len() + j + 1).drop_last() =~= all.take(args@.len() + j));
        }
        add_remapping(&mut paths, &configured[j]);
        j = j + 1;
    }
    assert(all.take(args@.len() + j) =~= all);
    let n: usize = paths.len();
    let ghost keys = paths.keys();
    let mut stacked: Vec<Remapping> = Vec::new();
    let mut k: usize = 0;
    while k < n
        invariant
            k <= n,
            n == keys.len(),
            keys == paths.keys(),
            names(stacked@) == keys.take(k as int),
            forall|i: int|
                0 <= i < stacked@.len() ==> (#[trigger] stacked@[i]).path == paths@[encode_utf8(
                    stacked@[i].name@,
                )],
        decreases n - k,
    {
        let (name, path) = paths.entry(k);
        let ghost before = stacked@;
        stacked.push(Remapping { name: name.0.clone(), path: path.clone() });
        assert(names(stacked@) =~= names(before).push(keys[k as int]));
        assert(keys.take(k + 1) =~= keys.take(k as int).push(keys[k as int]));
        k = k + 1;
    }
    assert(keys.take(n as int) =~= keys);
    stacked
}

/// Adds a remapping unless there is one of that name.
fn add_remapping(paths: &mut OrderedMap<Name, String>, remapping: &Remapping)
    ensures
        final(paths)@ == (if old(paths)@.contains_key(encode_utf8(remapping.name@)) {
            old(paths)@
        } else {
            old(paths)@.insert(encode_utf8(remapping.name@), remapping.path)
        }),
{
    let name = Name(remapping.name.clone());
    if paths.get(&name).is_none() {
        paths.insert(name, remapping.path.clone());
    }
}

/// A copy of a remapping.
fn clone_remapping(remapping: &Remapping) -> (copy: Remapping)
    ensures
        copy == *remapping,
{
    Remapping { name: remapping.name.clone(), path: remapping.path.clone() }
}

/// The arguments that concern the compiler.
pub struct CompilerArgs {
    /// activate the solidity optimizer
    pub optimize: bool,
    /// extra output types to put into the artifacts
    pub extra_output: Option<Vec<String>>,
    /// extra output types to write to files of their own
    pub extra_output_files: Option<Vec<String>>,
}

/// The arguments of a build.
///
/// Paths are given as they are displayed.
pub struct BuildArgs {
    /// the project's root path. By default, this is the root directory of the current Git
    /// repository or the current working directory if it is not part of a Git repository
    pub root: Option<String>,
    /// the directory relative to the root under which the smart contracts are
    pub contracts: Option<String>,
    /// the remappings
    pub remappings: Vec<Remapping>,
    /// the path where cached compiled contracts are stored
    pub cache_path: Option<String>,
    /// the paths where your libraries are installed
    pub lib_paths: Vec<String>,
    /// path to where the contract artifacts are stored
    pub out_path: Option<String>,
    pub compiler: CompilerArgs,
    /// print compiled contract names
    pub names: bool,
    /// print compiled contract sizes
    pub sizes: bool,
    /// ignore warnings with specific error codes
    pub ignored_error_codes: Vec<u64>,
    /// if set to true, skips auto-detecting solc and uses what is in the user's $PATH
    pub no_auto_detect: bool,
    /// specify the solc version or path to a local solc to run with. This accepts values of the
    /// form `x.y.z`, `solc:x.y.z` or `path/to/existing/solc`
    pub use_solc: Option<String>,
    /// if set to true, runs without accessing the network (missing solc versions will not be
    /// installed)
    pub offline: bool,
    /// force recompilation of the project, deletes the cache and artifacts folders
    pub force: bool,
    /// uses hardhat style project layout. This a convenience flag and is the same as
    /// `--contracts contracts --lib-paths node_modules`
    pub hardhat: bool,
    /// add linked libraries
    pub libraries: Vec<String>,
    /// the paths to watch for changes
    pub watch: Option<Vec<String>>,
    /// if set to true, changes compilation pipeline to go through the Yul intermediate
    /// representation
    pub via_ir: bool,
    /// path to the foundry.toml
    pub config_path: Option<String>,
}

/// The value of a setting.
pub enum Value {
    Text(String),
    Flag(bool),
    List(Vec<String>),
    Codes(Vec<u64>),
}

/// The value of a setting.
pub ghost enum Setting {
    Text(Seq<char>),
    Flag(bool),
    List(Seq<Seq<char>>),
    Codes(Seq<u64>),
}

/// Several strings, seen as their characters.
pub open spec fn texts(strings: Seq<String>) -> Seq<Seq<char>> {
    strings.map_values(|string: String| string@)
}

impl View for Value {
    type V = Setting;

    open spec fn view(&self) -> Setting {
        match self {
            Value::Text(text) => Setting::Text(text@),
            Value::Flag(flag) => Setting::Flag(*flag),
            Value::List(list) => Setting::List(texts(list@)),
            Value::Codes(codes) => Setting::Codes(codes@),
        }
    }
}

/// Settings that are overridden, with their values.
pub open spec fn settings(overrides: Seq<(String, Value)>) -> Seq<(Seq<char>, Setting)> {
    overrides.map_values(|setting: (String, Value)| (setting.0@, setting.1@))
}

/// The setting that a value is, if there is one.
pub open spec fn setting(value: Option<Value>) -> Option<Setting> {
    match value {
        Some(value) => Some(value@),
        None => None,
    }
}

/// Settings, each of which may have a value.
pub open spec fn slots_of(slots: Seq<(String, Option<Value>)>) -> Seq<
    (Seq<char>, Option<Setting>),
> {
    slots.map_values(|slot: (String, Option<Value>)| (slot.0@, setting(slot.1)))
}

/// The settings that have a value.
pub open spec fn taken(slots: Seq<(Seq<char>, Option<Setting>)>) -> Seq<(Seq<char>, Setting)>
    decreases slots.len(),
{
    if slots.len() == 0 {
        Seq::empty()
    } else {
        match slots.last().1 {
            Some(value) => taken(slots.drop_last()).push((slots.last().0, value)),
            None => taken(slots.drop_last()),
        }
    }
}

/// The value of a flag that is set to `flag` if the condition holds.
pub open spec fn flag_if(condition: bool, flag: bool) -> Option<Setting> {
    if condition {
        Some(Setting::Flag(flag))
    } else {
        None
    }
}

/// The value of a text, if there is one.
pub open spec fn text_if(text: Option<String>) -> Option<Setting> {
    match text {
        Some(text) => Some(Setting::Text(text@)),
        None => None,
    }
}

/// The value of a list, if there is one.
pub open spec fn list_if(list: Option<Vec<String>>) -> Option<Setting> {
    match list {
        Some(list) => Some(Setting::List(texts(list@))),
        None => None,
    }
}

/// The value of a list that has items.
pub open spec fn items_if(items: Seq<Seq<char>>) -> Option<Setting> {
    if items.len() > 0 {
        Some(Setting::List(items))
    } else {
        None
    }
}

/// What is left of `text` once every `prefix` that it starts with is taken off.
pub open spec fn trimmed(text: Seq<char>, prefix: Seq<char>) -> Seq<char>
    decreases text.len(),
{
    if 0 < prefix.len() <= text.len() && text.take(prefix.len() as int) == prefix {
        trimmed(text.skip(prefix.len() as int), prefix)
    } else {
        text
    }
}

impl BuildArgs {
    /// The paths of the libraries. Those of a hardhat project are in `node_modules`.
    pub open spec fn libs(self) -> Seq<Seq<char>> {
        if self.hardhat {
            texts(self.lib_paths@).push("node_modules"@)
        } else {
            texts(self.lib_paths@)
        }
    }

    /// The settings of the project's layout, with the values that the arguments give them.
    pub open spec fn layout(self) -> Seq<(Seq<char>, Option<Setting>)> {
        seq![
            (
                "src"@,
                if self.hardhat {
                    Some(Setting::Text("contracts"@))
                } else {
                    text_if(self.contracts)
                },
            ),
            ("cache_path"@, text_if(self.cache_path)),
            ("libs"@, items_if(self.libs())),
            ("out"@, text_if(self.out_path)),
            ("libraries"@, items_if(texts(self.libraries@))),
        ]
    }

    /// The settings of the compilation, with the values that the arguments give them.
    pub open spec fn compilation(self) -> Seq<(Seq<char>, Option<Setting>)> {
        seq![
            ("auto_detect_solc"@, flag_if(self.no_auto_detect, false)),
            (
                "solc"@,
                match self.use_solc {
                    Some(solc) => Some(Setting::Text(trimmed(solc@, "solc:"@))),
                    None => None,
                },
            ),
            ("offline"@, flag_if(self.offline, true)),
            ("via_ir"@, flag_if(self.via_ir, true)),
            ("names"@, flag_if(self.names, true)),
            ("sizes"@, flag_if(self.sizes, true)),
            ("force"@, flag_if(self.force, true)),
            (
                "ignored_error_codes"@,
                if self.ignored_error_codes@.len() > 0 {
                    Some(Setting::Codes(self.ignored_error_codes@))
                } else {
                    None
                },
            ),
            ("optimizer"@, flag_if(self.compiler.optimize, true)),
            ("extra_output"@, list_if(self.compiler.extra_output)),
            ("extra_output_files"@, list_if(self.compiler.extra_output_files)),
        ]
    }

    /// The settings that the arguments override.
    pub open spec fn overrides(self) -> Seq<(Seq<char>, Setting)> {
        taken(self.layout() + self.compilation())
    }
}

/// A copy of several strings.
fn clone_strings(strings: &Vec<String>) -> (copy: Vec<String>)
    ensures
        copy@ == strings@,
{
    let mut copy: Vec<String> = Vec::new();
    let mut i: usize = 0;
    while i < strings.len()
        invariant
            i <= strings@.len(),
            copy@ == strings@.take(i as int),
        decreases strings@.len() - i,
    {
        copy.push(strings[i].clone());
        assert(strings@.take(i + 1) =~= strings@.take(i as int).push(strings@[i as int]));
        i = i + 1;
    }
    assert(strings@.take(i as int) =~= strings@);
    copy
}

/// Adds a setting.
fn add_slot(slots: &mut Vec<(String, Option<Value>)>, name: &str, value: Option<Value>)
    ensures
        slots_of(final(slots)@) == slots_of(old(slots)@).push((name@, setting(value))),
{
    let ghost before = slots@;
    slots.push((name.to_owned(), value));
    assert(slots_of(slots@) =~= slots_of(before).push((name@, setting(value))));
}

fn flag_value(condition: bool, flag: bool) -> (value: Option<Value>)
    ensures
        setting(value) == flag_if(condition, flag),
{
    if condition {
        Some(Value::Flag(flag))
    } else {
        None
    }
}

fn text_value(text: &Option<String>) -> (value: Option<Value>)
    ensures
        setting(value) == text_if(*text),
{
    match text {
        Some(text) => Some(Value::Text(text.clone())),
        None => None,
    }
}

fn list_value(list: &Option<Vec<String>>) -> (value: Option<Value>)
    ensures
        setting(value) == list_if(*list),
{
    match list {
        Some(list) => Some(Value::List(clone_strings(list))),
        None => None,
    }
}

fn items_value(items: Vec<String>) -> (value: Option<Value>)
    ensures
        setting(value) == items_if(texts(items@)),
{
    if items.is_empty() {
        None
    } else {
        Some(Value::List(items))
    }
}

fn codes_value(codes: &Vec<u64>) -> (value: Option<Value>)
    ensures
        setting(value) == (if codes@.len() > 0 {
            Some(Setting::Codes(codes@))
        } else {
            None
        }),
{
    if codes.is_empty() {
        None
    } else {
        let copy: Vec<u64> = codes.clone();
        assert(copy@ =~= codes@);
        Some(Value::Codes(copy))
    }
}

/// Takes every `prefix` off the start of `text`.
fn trim_start_matches(text: &str, prefix: &str) -> (rest: String)
    ensures
        rest@ == trimmed(text@, prefix@),
{
    let text_len: usize = text.unicode_len();
    let prefix_len: usize = prefix.unicode_len();
    let mut start: usize = 0;
    assert(text@.skip(0) =~= text@);
    if prefix_len > 0 {
        while starts_at(text, start, prefix)
            invariant
                0 < prefix_len == prefix@.len(),
                start <= text_len == text@.len(),
                trimmed(text@.skip(start as int), prefix@) == trimmed(text@, prefix@),
            ensures
                start <= text_len,
                trimmed(text@.skip(start as int), prefix@) == trimmed(text@, prefix@),
                !(prefix@.len() <= text@.skip(start as int).len() && text@.skip(
                    start as int,
                ).take(prefix@.len() as int) == prefix@),
            decreases text_len - start,
        {
            proof {
                assert(text@.skip(start as int).skip(prefix_len as int) =~= text@.skip(
                    start + prefix_len,
                ));
            }
            start = start + prefix_len;
        }
    }
    let rest = text.substring_char(start, text_len);
    assert(rest@ =~= text@.skip(start as int));
    rest.to_owned()
}

/// Whether `part` stands in `text` at `start`.
fn starts_at(text: &str, start: usize, part: &str) -> (found: bool)
    requires
        start <= text@.len(),
    ensures
        found == (part@.len() <= text@.skip(start as int).len() && text@.skip(start as int).take(
            part@.len() as int,
        ) == part@),
{
    let text_len: usize = text.unicode_len();
    let part_len: usize = part.unicode_len();
    if text_len - start < part_len {
        return false;
    }
    let ghost found = text@.skip(start as int).take(part@.len() as int);
    let mut i: usize = 0;
    while i < part_len
        invariant
            i <= part_len == part@.len(),
            start + part_len <= text_len == text@.len(),
            found == text@.skip(start as int).take(part@.len() as int),
            forall|j: int| 0 <= j < i ==> found[j] == part@[j],
        decreases part_len - i,
    {
        if text.get_char(start + i) != part.get_char(i) {
            assert(found[i as int] != part@[i as int]);
            return false;
        }
        i = i + 1;
    }
    assert(found =~= part@);
    true
}

impl BuildArgs {
    /// Returns the root directory to use for configuring the project
    ///
    /// This will be the `--root` argument if provided, otherwise the root that was found
    pub fn project_root(&self, found: String) -> (root: String)
        ensures
            root == match self.root {
                Some(root) => root,
                None => found,
            },
    {
        match &self.root {
            Some(root) => root.clone(),
            None => found,
        }
    }

    /// Whether a `--config-path` is a path to a foundry.toml file. The path is given by its
    /// components.
    pub fn is_config_file(components: &[String]) -> (is_config: bool)
        ensures
            is_config == (components@.len() > 0 && components@.last()@ == "foundry.toml"@),
    {
        let n: usize = components.len();
        n > 0 && components[n - 1] == "foundry.toml".to_owned()
    }

    /// The root directory of the configuration. If `--config-path` is set it has to be the actual
    /// root path of the project, otherwise it would be the parent of the `--config-path`.
    pub fn config_root(&self, configured: String, found: String) -> (root: String)
        ensures
            root == match (self.config_path, self.root) {
                (None, _) => configured,
                (Some(_), Some(root)) => root,
                (Some(_), None) => found,
            },
    {
        if self.config_path.is_some() {
            self.project_root(found)
        } else {
            configured
        }
    }

    /// Returns whether the build was configured with `--watch`
    pub fn is_watch(&self) -> (watched: bool)
        ensures
            watched == self.watch is Some,
    {
        self.watch.is_some()
    }

    /// Returns the remappings to add to the config: those of the arguments, followed by those of
    /// the environment variable that the arguments name, if it is set
    pub fn get_remappings(&self, env_remappings: Option<Vec<Remapping>>) -> (remappings: Vec<
        Remapping,
    >)
        ensures
            remappings@ == self.remappings@ + match env_remappings {
                Some(env_remappings) => env_remappings@,
                None => Seq::empty(),
            },
    {
        let mut remappings: Vec<Remapping> = Vec::new();
        let mut i: usize = 0;
        while i < self.remappings.len()
            invariant
                i <= self.remappings@.len(),
                remappings@ == self.remappings@.take(i as int),
            decreases self.remappings@.len() - i,
        {
            remappings.push(clone_remapping(&self.remappings[i]));
            assert(self.remappings@.take(i + 1) =~= self.remappings@.take(i as int).push(
                self.remappings@[i as int],
            ));
            i = i + 1;
        }
        assert(remappings@ =~= self.remappings@);
        if let Some(mut env_remappings) = env_remappings {
            remappings.append(&mut env_remappings);
        }
        remappings
    }

    /// The settings that the arguments override.
    pub fn data(&self) -> (overrides: Vec<(String, Value)>)
        ensures
            settings(overrides@) == self.overrides(),
    {
        let mut slots: Vec<(String, Option<Value>)> = self.layout_data();
        let mut compilation: Vec<(String, Option<Value>)> = self.compilation_data();
        let ghost layout = slots@;
        let ghost rest = compilation@;
        slots.append(&mut compilation);
        let ghost all = slots_of(slots@);
        assert(all =~= slots_of(layout) + slots_of(rest));
        let mut overrides: Vec<(String, Value)> = Vec::new();
        assert(settings(overrides@) =~= taken(all.take(0)));
        for slot in items: slots
            invariant
                slots_of(items.seq()) == all,
                settings(overrides@) == taken(all.take(items.index() as int)),
        {
            let ghost before = overrides@;
            proof {
                let next = all.take(items.index() as int + 1);
                assert(next.drop_last() =~= all.take(items.index() as int));
                assert(next.last() == (slot.0@, setting(slot.1)));
            }
            let (name, value) = slot;
            if let Some(value) = value {
                overrides.push((name, value));
                assert(settings(overrides@) =~= settings(before).push((name@, value@)));
            }
        }
        assert(all.take(all.len() as int) =~= all);
        overrides
    }

    fn layout_data(&self) -> (slots: Vec<(String, Option<Value>)>)
        ensures
            slots_of(slots@) == self.layout(),
    {
        let mut libs: Vec<String> = clone_strings(&self.lib_paths);
        let src: Option<Value> = if self.hardhat {
            libs.push("node_modules".to_owned());
            Some(Value::Text("contracts".to_owned()))
        } else {
            text_value(&self.contracts)
        };
        assert(texts(libs@) =~= self.libs());
        let mut slots: Vec<(String, Option<Value>)> = Vec::new();
        add_slot(&mut slots, "src", src);
        add_slot(&mut slots, "cache_path", text_value(&self.cache_path));
        add_slot(&mut slots, "libs", items_value(libs));
        add_slot(&mut slots, "out", text_value(&self.out_path));
        add_slot(&mut slots, "libraries", items_value(clone_strings(&self.libraries)));
        assert(slots_of(slots@) =~= self.layout());
        slots
    }

    fn compilation_data(&self) -> (slots: Vec<(String, Option<Value>)>)
        ensures
            slots_of(slots@) == self.compilation(),
    {
        let solc: Option<Value> = match &self.use_solc {
            Some(solc) => Some(Value::Text(trim_start_matches(solc.as_str(), "solc:"))),
            None => None,
        };
        let mut slots: Vec<(String, Option<Value>)> = Vec::new();
        add_slot(&mut slots, "auto_detect_solc", flag_value(self.no_auto_detect, false));
        add_slot(&mut slots, "solc", solc);
        add_slot(&mut slots, "offline", flag_value(self.offline, true));
        add_slot(&mut slots, "via_ir", flag_value(self.via_ir, true));
        add_slot(&mut slots, "names", flag_value(self.names, true));
        add_slot(&mut slots, "sizes", flag_value(self.sizes, true));
        add_slot(&mut slots, "force", flag_value(self.force, true));
        add_slot(&mut slots, "ignored_error_codes", codes_value(&self.ignored_error_codes));
        add_slot(&mut slots, "optimizer", flag_value(self.compiler.optimize, true));
        add_slot(&mut slots, "extra_output", list_value(&self.compiler.extra_output));
        add_slot(&mut slots, "extra_output_files", list_value(&self.compiler.extra_output_files));
        assert(slots_of(slots@) =~= self.compilation());
        slots
    }
}

/// Names with the same bytes are the same.
proof fn lemma_same_name(a: Seq<char>, b: Seq<char>)
    ensures
        encode_utf8(a) == encode_utf8(b) <==> a == b,
{
    vstd::utf8::encode_utf8_decode_utf8(a);
    vstd::utf8::encode_utf8_decode_utf8(b);
}

/// The names that lead somewhere are those of the remappings.
pub proof fn law_remapped_names(remappings: Seq<Remapping>, name: Seq<char>)
    ensures
        first_paths(remappings).contains_key(encode_utf8(name)) <==> exists|i: int|
            0 <= i < remappings.len() && (#[trigger] remappings[i]).name@ == name,
    decreases remappings.len(),
{
    if remappings.len() > 0 {
        let earlier = remappings.drop_last();
        law_remapped_names(earlier, name);
        lemma_same_name(remappings.last().name@, name);
        assert(remappings[remappings.len() - 1] == remappings.last());
        if exists|i: int| 0 <= i < earlier.len() && (#[trigger] earlier[i]).name@ == name {
            let i = choose|i: int|
                0 <= i < earlier.len() && (#[trigger] earlier[i]).name@ == name;
            assert(remappings[i].name@ == name);
        }
        if exists|i: int| 0 <= i < remappings.len() && (#[trigger] remappings[i]).name@ == name {
            let i = choose|i: int|
                0 <= i < remappings.len() && (#[trigger] remappings[i]).name@ == name;
            if i < earlier.len() {
                assert(earlier[i].name@ == name);
            }
        }
    }
}

/// A name leads where its first remapping says.
pub proof fn law_first_remapping_counts(remappings: Seq<Remapping>, i: int)
    requires
        0 <= i < remappings.len(),
        forall|j: int| 0 <= j < i ==> (#[trigger] remappings[j]).name@ != remappings[i].name@,
    ensures
        first_paths(remappings).contains_key(encode_utf8(remappings[i].name@)),
        first_paths(remappings)[encode_utf8(remappings[i].name@)] == remappings[i].path,
    decreases remappings.len(),
{
    let earlier = remappings.drop_last();
    if i < earlier.len() {
        law_first_remapping_counts(earlier, i);
    } else {
        law_remapped_names(earlier, remappings[i].name@);
    }
}

/// Remappings stack: what the arguments say of a name counts, and what the project is configured
/// with counts for all other names.
pub proof fn law_arguments_win(
    args: Seq<Remapping>,
    configured: Seq<Remapping>,
    name: Seq<u8>,
)
    ensures
        first_paths(args).contains_key(name) ==> {
            &&& first_paths(args + configured).contains_key(name)
            &&& first_paths(args + configured)[name] == first_paths(args)[name]
        },
        !first_paths(args).contains_key(name) ==> {
            &&& first_paths(args + configured).contains_key(name) == first_paths(
                configured,
            ).contains_key(name)
            &&& first_paths(configured).contains_key(name) ==> first_paths(args + configured)[name]
                == first_paths(configured)[name]
        },
    decreases configured.len(),
{
    if configured.len() == 0 {
        assert(args + configured =~= args);
    } else {
        law_arguments_win(args, configured.drop_last(), name);
        assert((args + configured).drop_last() =~= args + configured.drop_last());
        assert((args + configured).last() == configured.last());
    }
}

/// The hardhat layout is the same as `--contracts contracts --lib-paths node_modules`.
pub proof fn law_hardhat_layout(hardhat: BuildArgs, plain: BuildArgs)
    requires
        hardhat.hardhat,
        plain == (BuildArgs {
            contracts: plain.contracts,
            lib_paths: plain.lib_paths,
            hardhat: false,
            ..hardhat
        }),
        plain.contracts matches Some(contracts) && contracts@ == "contracts"@,
        texts(plain.lib_paths@) == texts(hardhat.lib_paths@).push("node_modules"@),
    ensures
        hardhat.overrides() == plain.overrides(),
{
    assert(hardhat.libs() == plain.libs());
    assert(hardhat.layout() =~= plain.layout());
    assert(hardhat.compilation() =~= plain.compilation());
}

/// `solc:x.y.z` means the same as `x.y.z`.
pub proof fn law_prefix_does_not_matter(text: Seq<char>, prefix: Seq<char>)
    ensures
        trimmed(prefix + text, prefix) == trimmed(text, prefix),
{
    if prefix.len() == 0 {
        assert(prefix + text =~= text);
    } else {
        assert((prefix + text).take(prefix.len() as int) =~= prefix);
        assert((prefix + text).skip(prefix.len() as int) =~= text);
    }
}

/// What is left after trimming does not start with the prefix.
pub proof fn law_trimmed_for_good(text: Seq<char>, prefix: Seq<char>)
    ensures
        trimmed(trimmed(text, prefix), prefix) == trimmed(text, prefix),
    decreases text.len(),
{
    if 0 < prefix.len() <= text.len() && text.take(prefix.len() as int) == prefix {
        law_trimmed_for_good(text.skip(prefix.len() as int), prefix);
    }
}

/// The place of a setting among those that arguments can override, told by its length and its first
/// letter.
spec fn rank(name: Seq<char>) -> int {
    let n = name.len();
    let first = name[0];
    if n == 3 {
        if first == 's' { 0 } else { 3 }
    } else if n == 10 {
        1
    } else if n == 4 {
        if first == 'l' { 2 } else { 6 }
    } else if n == 9 {
        if first == 'l' { 4 } else { 13 }
    } else if n == 16 {
        5
    } else if n == 7 {
        7
    } else if n == 6 {
        8
    } else if n == 5 {
        if first == 'n' { 9 } else if first == 's' { 10 } else { 11 }
    } else if n == 19 {
        12
    } else if n == 12 {
        14
    } else {
        15
    }
}

proof fn lemma_ranks(args: BuildArgs)
    ensures
        ({
            let slots = args.layout() + args.compilation();
            forall|i: int| 0 <= i < slots.len() ==> rank((#[trigger] slots[i]).0) == i
        }),
{
    reveal_strlit("src");
    reveal_strlit("cache_path");
    reveal_strlit("libs");
    reveal_strlit("out");
    reveal_strlit("libraries");
    reveal_strlit("auto_detect_solc");
    reveal_strlit("solc");
    reveal_strlit("offline");
    reveal_strlit("via_ir");
    reveal_strlit("names");
    reveal_strlit("sizes");
    reveal_strlit("force");
    reveal_strlit("ignored_error_codes");
    reveal_strlit("optimizer");
    reveal_strlit("extra_output");
    reveal_strlit("extra_output_files");
    let layout = args.layout();
    let compilation = args.compilation();
    assert forall|i: int| 0 <= i < 5 implies rank((#[trigger] layout[i]).0) == i by {
    }
    assert forall|i: int| 0 <= i < 11 implies rank((#[trigger] compilation[i]).0) == i + 5 by {
    }
}

/// Settings that have a value keep their order: their places are those of the slots.
proof fn lemma_taken_ranked(slots: Seq<(Seq<char>, Option<Setting>)>)
    requires
        forall|i: int| 0 <= i < slots.len() ==> rank((#[trigger] slots[i]).0) == i,
    ensures
        forall|i: int|
            0 <= i < taken(slots).len() ==> rank((#[trigger] taken(slots)[i]).0) < slots.len(),
        forall|i: int, j: int|
            0 <= i < j < taken(slots).len() ==> rank((#[trigger] taken(slots)[i]).0) < rank(
                (#[trigger] taken(slots)[j]).0,
            ),
    decreases slots.len(),
{
    if slots.len() > 0 {
        let earlier = slots.drop_last();
        assert forall|i: int| 0 <= i < earlier.len() implies rank((#[trigger] earlier[i]).0)
            == i by {
            assert(slots[i] == earlier[i]);
        }
        lemma_taken_ranked(earlier);
        assert(rank(slots[slots.len() - 1].0) == slots.len() - 1);
        assert forall|i: int| 0 <= i < taken(earlier).len() implies #[trigger] taken(slots)[i]
            == taken(earlier)[i] by {
        }
        assert(taken(slots).len() > taken(earlier).len() ==> taken(slots).last().0
            == slots.last().0);
    }
}

/// No setting is overridden twice.
pub proof fn law_each_setting_once(args: BuildArgs)
    ensures
        forall|i: int, j: int|
            0 <= i < j < args.overrides().len() ==> (#[trigger] args.overrides()[i]).0 != (
            #[trigger] args.overrides()[j]).0,
{
    lemma_ranks(args);
    lemma_taken_ranked(args.layout() + args.compilation());
}

/// Exactly the settings that have a value are taken, with that value.
proof fn lemma_taken(slots: Seq<(Seq<char>, Option<Setting>)>, k: int, value: Setting)
    requires
        0 <= k < slots.len(),
        forall|i: int| 0 <= i < slots.len() ==> rank((#[trigger] slots[i]).0) == i,
    ensures
        taken(slots).contains((slots[k].0, value)) <==> slots[k].1 == Some(value),
    decreases slots.len(),
{
    let earlier = slots.drop_last();
    let last = slots.len() - 1;
    let wanted = (slots[k].0, value);
    assert forall|i: int| 0 <= i < earlier.len() implies rank((#[trigger] earlier[i]).0) == i by {
        assert(slots[i] == earlier[i]);
    }
    assert(rank(slots[last].0) == last);
    assert(rank(slots[k].0) == k);
    if k == last {
        lemma_taken_ranked(earlier);
        if taken(earlier).contains(wanted) {
            let i = taken(earlier).index_of(wanted);
            assert(rank(taken(earlier)[i].0) < earlier.len());
        }
        if slots[k].1 == Some(value) {
            assert(taken(slots).last() == wanted);
        } else if taken(slots).contains(wanted) {
            let i = taken(slots).index_of(wanted);
            if i < taken(earlier).len() {
                assert(taken(earlier)[i] == wanted);
            }
        }
    } else {
        lemma_taken(earlier, k, value);
        assert(earlier[k] == slots[k]);
        if taken(earlier).contains(wanted) {
            let i = taken(earlier).index_of(wanted);
            assert(taken(slots)[i] == wanted);
        }
        if taken(slots).contains(wanted) {
            let i = taken(slots).index_of(wanted);
            if i < taken(earlier).len() {
                assert(taken(earlier)[i] == wanted);
            } else {
                assert(taken(slots)[i].0 == slots[last].0);
            }
        }
    }
}

/// Each flag is decided by its own argument: it is overridden if that is given, with the value that
/// the argument stands for, and not otherwise.
pub proof fn law_flags_set_their_own_settings(args: BuildArgs, value: Setting)
    ensures
        args.overrides().contains(("auto_detect_solc"@, value)) <==> args.no_auto_detect && value == Setting::Flag(
            false,
        ),
        args.overrides().contains(("offline"@, value)) <==> args.offline && value == Setting::Flag(
            true,
        ),
        args.overrides().contains(("via_ir"@, value)) <==> args.via_ir && value == Setting::Flag(
            true,
        ),
        args.overrides().contains(("names"@, value)) <==> args.names && value == Setting::Flag(
            true,
        ),
        args.overrides().contains(("sizes"@, value)) <==> args.sizes && value == Setting::Flag(
            true,
        ),
        args.overrides().contains(("force"@, value)) <==> args.force && value == Setting::Flag(
            true,
        ),
        args.overrides().contains(("optimizer"@, value)) <==> args.compiler.optimize && value == Setting::Flag(
            true,
        ),
{
    let slots = args.layout() + args.compilation();
    lemma_ranks(args);
    lemma_taken(slots, 5, value);
    lemma_taken(slots, 7, value);
    lemma_taken(slots, 8, value);
    lemma_taken(slots, 9, value);
    lemma_taken(slots, 10, value);
    lemma_taken(slots, 11, value);
    lemma_taken(slots, 13, value);
}

/// Each path and each list of the compiler is decided by its own argument: it is overridden by what
/// was given, if anything was given.
pub proof fn law_values_set_their_own_settings(args: BuildArgs, value: Setting)
    ensures
        args.overrides().contains(("cache_path"@, value)) <==> (args.cache_path matches Some(text) && value
            == Setting::Text(text@)),
        args.overrides().contains(("out"@, value)) <==> (args.out_path matches Some(text) && value
            == Setting::Text(text@)),
        args.overrides().contains(("extra_output"@, value)) <==> (args.compiler.extra_output matches Some(list) && value
            == Setting::List(texts(list@))),
        args.overrides().contains(("extra_output_files"@, value)) <==> (args.compiler.extra_output_files matches Some(list) && value
            == Setting::List(texts(list@))),
        args.overrides().contains(("libraries"@, value)) <==> args.libraries@.len() > 0 && value
            == Setting::List(texts(args.libraries@)),
        args.overrides().contains(("ignored_error_codes"@, value))
            <==> args.ignored_error_codes@.len() > 0 && value == Setting::Codes(
            args.ignored_error_codes@,
        ),
{
    let slots = args.layout() + args.compilation();
    lemma_ranks(args);
    lemma_taken(slots, 1, value);
    lemma_taken(slots, 3, value);
    lemma_taken(slots, 14, value);
    lemma_taken(slots, 15, value);
    lemma_taken(slots, 4, value);
    lemma_taken(slots, 12, value);
}

/// The directory of the sources is the one that was given, but that of a hardhat project is always
/// `contracts`.
pub proof fn law_sources(args: BuildArgs, value: Setting)
    ensures
        args.hardhat ==> (args.overrides().contains(("src"@, value)) <==> value == Setting::Text(
            "contracts"@,
        )),
        !args.hardhat ==> (args.overrides().contains(("src"@, value)) <==> (
        args.contracts matches Some(text) && value == Setting::Text(text@))),
{
    let slots = args.layout() + args.compilation();
    lemma_ranks(args);
    lemma_taken(slots, 0, value);
}

/// The libraries are looked for where the arguments say, in that order, and in a hardhat project in
/// `node_modules` after that. Nothing is overridden if that is nowhere.
pub proof fn law_library_paths(args: BuildArgs, value: Setting)
    ensures
        args.overrides().contains(("libs"@, value)) ==> value is List,
        value matches Setting::List(paths) ==> (args.overrides().contains(("libs"@, value)) <==> {
            &&& paths.len() > 0
            &&& paths.len() == args.lib_paths@.len() + if args.hardhat {
                1int
            } else {
                0int
            }
            &&& forall|i: int|
                0 <= i < args.lib_paths@.len() ==> #[trigger] paths[i] == args.lib_paths@[i]@
            &&& args.hardhat ==> paths.last() == "node_modules"@
        }),
{
    let slots = args.layout() + args.compilation();
    lemma_ranks(args);
    lemma_taken(slots, 2, value);
    if let Setting::List(paths) = value {
        let libs = args.libs();
        if args.overrides().contains(("libs"@, value)) {
            assert(paths == libs);
        }
        if paths.len() == libs.len() && (forall|i: int|
            0 <= i < args.lib_paths@.len() ==> #[trigger] paths[i] == args.lib_paths@[i]@) && (
        args.hardhat ==> paths.last() == "node_modules"@) {
            assert(paths =~= libs);
        }
    }
}

/// The compiler is overridden if one is named, by what is left of its name without `solc:`.
pub proof fn law_compiler(args: BuildArgs, value: Setting)
    ensures
        args.overrides().contains(("solc"@, value)) <==> (args.use_solc matches Some(solc) && value
            == Setting::Text(trimmed(solc@, "solc:"@))),
{
    let slots = args.layout() + args.compilation();
    lemma_ranks(args);
    lemma_taken(slots, 6, value);
}

/// A value is seen as what it holds.
pub proof fn law_value_is_what_it_holds(
    text: String,
    flag: bool,
    list: Vec<String>,
    codes: Vec<u64>,
)
    ensures
        Value::Text(text)@ == Setting::Text(text@),
        Value::Flag(flag)@ == Setting::Flag(flag),
        Value::List(list)@ matches Setting::List(paths) && paths.len() == list@.len() && forall|
            i: int,
        |
            0 <= i < paths.len() ==> #[trigger] paths[i] == list@[i]@,
        Value::Codes(codes)@ == Setting::Codes(codes@),
{
}

/// Settings are seen one by one, in their order, each with its name and its value.
pub proof fn law_settings_are_seen_one_by_one(overrides: Seq<(String, Value)>, i: int)
    requires
        0 <= i < overrides.len(),
    ensures
        settings(overrides).len() == overrides.len(),
        settings(overrides)[i].0 == overrides[i].0@,
        settings(overrides)[i].1 == overrides[i].1@,
{
}

/// The names of remappings are seen as the bytes of their characters, one by one.
pub proof fn law_names_are_seen_one_by_one(remappings: Seq<Remapping>, i: int)
    requires
        0 <= i < remappings.len(),
    ensures
        names(remappings).len() == remappings.len(),
        names(remappings)[i] == encode_utf8(remappings[i].name@),
{
}

/// A text that does not start with the prefix stays as it is.
pub proof fn law_other_text_is_not_trimmed(text: Seq<char>, prefix: Seq<char>)
    requires
        prefix.len() == 0 || !prefix.is_prefix_of(text),
    ensures
        trimmed(text, prefix) == text,
{
    if 0 < prefix.len() <= text.len() && text.take(prefix.len() as int) == prefix {
        assert(prefix =~= text.subrange(0, prefix.len() as int));
        assert(prefix.is_prefix_of(text));
    }
}

/// Several copies of a text, one after the other.
pub open spec fn copies(text: Seq<char>, n: nat) -> Seq<char>
    decreases n,
{
    if n == 0 {
        Seq::empty()
    } else {
        text + copies(text, (n - 1) as nat)
    }
}

/// A text is some copies of the prefix followed by what is left of it, and what is left does not
/// start with the prefix.
pub proof fn law_trimming_takes_off_copies(text: Seq<char>, prefix: Seq<char>)
    requires
        prefix.len() > 0,
    ensures
        exists|n: nat| text == #[trigger] copies(prefix, n) + trimmed(text, prefix),
        !prefix.is_prefix_of(trimmed(text, prefix)),
    decreases text.len(),
{
    if prefix.len() <= text.len() && text.take(prefix.len() as int) == prefix {
        let rest = text.skip(prefix.len() as int);
        law_trimming_takes_off_copies(rest, prefix);
        let n = choose|n: nat| rest == #[trigger] copies(prefix, n) + trimmed(rest, prefix);
        assert(copies(prefix, n + 1) == prefix + copies(prefix, n));
        assert(text =~= prefix + rest);
        assert(text =~= copies(prefix, n + 1) + trimmed(text, prefix));
    } else {
        assert(copies(prefix, 0) + trimmed(text, prefix) =~= text);
        if prefix.is_prefix_of(text) {
            assert(text.take(prefix.len() as int) =~= prefix);
        }
    }
}

proof fn lemma_taken_from(slots: Seq<(Seq<char>, Option<Setting>)>, i: int) -> (k: int)
    requires
        0 <= i < taken(slots).len(),
    ensures
        0 <= k < slots.len(),
        slots[k].0 == taken(slots)[i].0,
    decreases slots.len(),
{
    let earlier = slots.drop_last();
    if i < taken(earlier).len() {
        let k = lemma_taken_from(earlier, i);
        assert(slots[k] == earlier[k]);
        assert(taken(slots)[i] == taken(earlier)[i]);
        k
    } else {
        slots.len() - 1
    }
}

/// The arguments override no other settings than these.
pub proof fn law_no_other_settings(args: BuildArgs, i: int)
    requires
        0 <= i < args.overrides().len(),
    ensures
        ({
            let name = args.overrides()[i].0;
            name == "src"@
                || name == "cache_path"@
                || name == "libs"@
                || name == "out"@
                || name == "libraries"@
                || name == "auto_detect_solc"@
                || name == "solc"@
                || name == "offline"@
                || name == "via_ir"@
                || name == "names"@
                || name == "sizes"@
                || name == "force"@
                || name == "ignored_error_codes"@
                || name == "optimizer"@
                || name == "extra_output"@
                || name == "extra_output_files"@
        }),
{
    let slots = args.layout() + args.compilation();
    let k = lemma_taken_from(slots, i);
    if k < 5 {
        assert(slots[k] == args.layout()[k]);
    } else {
        assert(slots[k] == args.compilation()[k - 5]);
    }
}

/// Strings are seen one by one, in their order, each as its characters.
pub proof fn law_strings_are_seen_one_by_one(strings: Seq<String>, i: int)
    requires
        0 <= i < strings.len(),
    ensures
        texts(strings).len() == strings.len(),
        texts(strings)[i] == strings[i]@,
{
}

} // verus!
