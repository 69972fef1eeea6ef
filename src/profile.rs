//! Shaders as the profile document holds them: loading them out of the
//! document, and writing their text back into it.
use vstd::prelude::*;
use crate::json::{find_key, first_key, get_field, get_field_exec, get_path, set_path, str_of, Json};
use crate::history::Blob;
use vstd::std_specs::iter::IteratorSpec;
use crate::lava_lamp::{blobs_of_text, export_text, LavaLampParser};
use crate::text::{chars_of, string_from_chars};

verus! {

/// The parser kinds a shader can have attached.
pub enum ShaderParser {
    LavaLamp(LavaLampParser),
}

impl ShaderParser {
    pub open spec fn wf(&self) -> bool {
        match self {
            ShaderParser::LavaLamp(p) => p.wf(),
        }
    }
}

/// One shader of the profile: its name, the devices that use it, its source
/// text, and the parser attached to it once it has been shown.
pub struct Shader {
    name: String,
    device_names: Vec<String>,
    pub parser: Option<ShaderParser>,
    pub shader_str: String,
}

/// The texts of `v`, in order.
pub open spec fn names_view(v: Seq<String>) -> Seq<Seq<char>> {
    v.map_values(|s: String| s@)
}

impl Shader {
    pub closed spec fn name_view(&self) -> Seq<char> {
        self.name@
    }

    pub closed spec fn devices_view(&self) -> Seq<Seq<char>> {
        names_view(self.device_names@)
    }

    /// The attached parser, with all of its state.
    pub closed spec fn parser_state(&self) -> Option<ShaderParser> {
        self.parser
    }

    pub closed spec fn text_view(&self) -> Seq<char> {
        self.shader_str@
    }

    pub closed spec fn wf(&self) -> bool {
        self.parser matches Some(p) ==> p.wf()
    }

    /// A shader with no parser attached.
    pub fn new(name: String, device_names: Vec<String>, shader_str: String) -> (r: Self)
        ensures
            r.name_view() == name@,
            r.devices_view() == names_view(device_names@),
            r.text_view() == shader_str@,
            r.wf(),
            r.parser_blobs() is None,
    {
        Shader { name, device_names, parser: None, shader_str }
    }

    /// The records of the attached parser, if one is attached.
    pub closed spec fn parser_blobs(&self) -> Option<Seq<Blob>> {
        match self.parser {
            Some(ShaderParser::LavaLamp(p)) => Some(p.blobs_view()),
            None => None,
        }
    }

    /// Attaches a fresh parser, in place of any attached one.
    pub fn attach_parser(&mut self)
        ensures
            final(self).wf(),
            final(self).parser_blobs() == Some(Seq::<Blob>::empty()),
            final(self).name_view() == old(self).name_view(),
            final(self).devices_view() == old(self).devices_view(),
            final(self).text_view() == old(self).text_view(),
    {
        self.parser = Some(ShaderParser::LavaLamp(LavaLampParser::new()));
    }

    /// Has the attached parser read the records out of the text, after
    /// turning each escaped line feed back into a line feed.
    pub fn parse(&mut self)
        requires
            old(self).wf(),
        ensures
            final(self).wf(),
            final(self).name_view() == old(self).name_view(),
            final(self).devices_view() == old(self).devices_view(),
            final(self).text_view() == old(self).text_view(),
            old(self).parser_blobs() is None ==> final(self).parser_blobs() is None,
            old(self).parser_blobs() is Some ==> final(self).parser_blobs() == Some(
                blobs_of_text(unescape_newlines(old(self).text_view(), 0)),
            ),
    {
        match &mut self.parser {
            Some(ShaderParser::LavaLamp(p)) => {
                let t = chars_of(self.shader_str.as_str());
                let u = unescape_newlines_exec(&t);
                let s = string_from_chars(&u);
                p.parse(s.as_str());
            },
            None => {},
        }
    }

    /// Regenerates the text from the attached parser's records, if one is attached.
    pub fn export(&mut self)
        requires
            old(self).wf(),
        ensures
            final(self).wf(),
            final(self).name_view() == old(self).name_view(),
            final(self).devices_view() == old(self).devices_view(),
            final(self).parser_blobs() == old(self).parser_blobs(),
            final(self).parser_state() == old(self).parser_state(),
            old(self).parser_blobs() is None ==> final(self).text_view() == old(self).text_view(),
            old(self).parser_blobs() matches Some(bs) ==> final(self).text_view() == export_text(
                bs,
                old(self).text_view(),
            ),
    {
        match &self.parser {
            Some(ShaderParser::LavaLamp(p)) => {
                let s = p.export(self.shader_str.as_str());
                self.shader_str = s;
            },
            None => {},
        }
    }

    pub fn name(&self) -> (r: &str)
        ensures
            r@ == self.name_view(),
    {
        self.name.as_str()
    }

    pub fn device_names(&self) -> (r: &[String])
        ensures
            names_view(r@) == self.devices_view(),
    {
        self.device_names.as_slice()
    }
}

/// `t[i..]` with each escaped line feed (a backslash and an `n`) turned into a line feed.
pub open spec fn unescape_newlines(t: Seq<char>, i: int) -> Seq<char>
    decreases t.len() - i,
{
    if i < 0 || i >= t.len() {
        seq![]
    } else if t[i] == '\\' && i + 1 < t.len() && t[i + 1] == 'n' {
        seq!['\n'] + unescape_newlines(t, i + 2)
    } else {
        seq![t[i]] + unescape_newlines(t, i + 1)
    }
}

fn unescape_newlines_exec(t: &Vec<char>) -> (r: Vec<char>)
    ensures
        r@ == unescape_newlines(t@, 0),
{
    let mut out: Vec<char> = Vec::new();
    let mut i: usize = 0;
    while i < t.len()
        invariant
            i <= t@.len(),
            unescape_newlines(t@, 0) == out@ + unescape_newlines(t@, i as int),
        decreases t@.len() - i,
    {
        let ghost o = out@;
        if t[i] == '\\' && i + 1 < t.len() && t[i + 1] == 'n' {
            out.push('\n');
            assert(o + (seq!['\n'] + unescape_newlines(t@, i + 2)) =~= out@ + unescape_newlines(t@, i + 2));
            i = i + 2;
        } else {
            out.push(t[i]);
            assert(o + (seq![t@[i as int]] + unescape_newlines(t@, i + 1)) =~= out@ + unescape_newlines(t@, i + 1));
            i = i + 1;
        }
    }
    assert(out@ + unescape_newlines(t@, i as int) =~= out@);
    out
}

/// How many times `x` occurs in `s`.
pub open spec fn count_of(s: Seq<Seq<char>>, x: Seq<char>) -> nat
    decreases s.len(),
{
    if s.len() == 0 {
        0
    } else {
        count_of(s.drop_last(), x) + if s.last() == x { 1nat } else { 0nat }
    }
}

/// `a` and `b` hold the same names, each as often: equal once sorted.
pub open spec fn same_names(a: Seq<Seq<char>>, b: Seq<Seq<char>>) -> bool {
    forall|x: Seq<char>| count_of(a, x) == count_of(b, x)
}

/// The text of the last shader in `ss` with name `name` and device names `devs`.
pub open spec fn matching_text(ss: Seq<Shader>, name: Seq<char>, devs: Seq<Seq<char>>) -> Option<Seq<char>>
    decreases ss.len(),
{
    if ss.len() == 0 {
        None
    } else if ss.last().name_view() == name && same_names(ss.last().devices_view(), devs) {
        Some(ss.last().text_view())
    } else {
        matching_text(ss.drop_last(), name, devs)
    }
}

pub open spec fn name_path() -> Seq<Seq<char>> {
    seq!["CustomSettings"@, "shader_name"@]
}

pub open spec fn fragment_path() -> Seq<Seq<char>> {
    seq!["CustomSettings"@, "shader_program"@, "main_pass"@, "fragment_shader"@]
}

pub open spec fn effect_name(e: Json) -> Option<Seq<char>> {
    str_of(get_path(e, name_path()))
}

pub open spec fn effect_fragment(e: Json) -> Option<Seq<char>> {
    str_of(get_path(e, fragment_path()))
}

/// The descriptions of the zones that have one, in order.
pub open spec fn descriptions(zs: Seq<Json>) -> Seq<Seq<char>>
    decreases zs.len(),
{
    if zs.len() == 0 {
        seq![]
    } else {
        descriptions(zs.drop_last()) + match str_of(get_field(zs.last(), "description"@)) {
            Some(d) => seq![d],
            None => seq![],
        }
    }
}

/// The device names of an effect: its zones' descriptions, none without zones.
pub open spec fn effect_devices(e: Json) -> Seq<Seq<char>> {
    match get_field(e, "ControllerZones"@) {
        Some(Json::Array(zs)) => descriptions(zs@),
        _ => seq![],
    }
}

/// The effects of a profile document; none when it has no `Effects` array.
pub open spec fn document_effects(doc: Json) -> Seq<Json> {
    match get_field(doc, "Effects"@) {
        Some(Json::Array(es)) => es@,
        _ => seq![],
    }
}

/// (name, device names, text) of each effect that names a shader and holds
/// its fragment text, in order.
pub open spec fn loaded_shaders(es: Seq<Json>) -> Seq<(Seq<char>, Seq<Seq<char>>, Seq<char>)>
    decreases es.len(),
{
    if es.len() == 0 {
        seq![]
    } else {
        let e = es.last();
        loaded_shaders(es.drop_last()) + match (effect_name(e), effect_fragment(e)) {
            (Some(n), Some(t)) => seq![(n, effect_devices(e), t)],
            _ => seq![],
        }
    }
}

/// `r` is effect `e` as saved from `ss`: its fragment text replaced by the
/// text of the matching shader, if it has valid settings and one matches.
pub open spec fn saved_effect(ss: Seq<Shader>, e: Json, r: Json) -> bool {
    match (effect_name(e), effect_fragment(e)) {
        (Some(n), Some(_)) => match matching_text(ss, n, effect_devices(e)) {
            Some(t) => set_path(e, fragment_path(), t, r),
            None => r == e,
        },
        _ => r == e,
    }
}

/// `r` is document `d` as saved from `ss`: each effect saved, all else kept.
pub open spec fn saved_document(ss: Seq<Shader>, d: Json, r: Json) -> bool {
    match d {
        Json::Object(a) => {
            let k = first_key(a@, "Effects"@);
            if k < a@.len() && a@[k].1 is Array {
                match r {
                    Json::Object(b) => {
                        &&& a@.len() == b@.len()
                        &&& forall|i: int| 0 <= i < a@.len() ==> (#[trigger] a@[i]).0 == b@[i].0
                        &&& forall|i: int| 0 <= i < a@.len() && i != k ==> (#[trigger] a@[i]).1 == b@[i].1
                        &&& match (a@[k].1, b@[k].1) {
                            (Json::Array(es), Json::Array(ns)) => {
                                &&& es@.len() == ns@.len()
                                &&& forall|j: int| 0 <= j < es@.len() ==> saved_effect(ss, #[trigger] es@[j], ns@[j])
                            },
                            _ => false,
                        }
                    },
                    _ => false,
                }
            } else {
                r == d
            }
        },
        _ => r == d,
    }
}

pub open spec fn keys_view(p: Seq<&str>) -> Seq<Seq<char>> {
    p.map_values(|s: &str| s@)
}

/// The value reached from `j` through the members `path[depth..]`.
fn get_path_exec<'a>(j: &'a Json, path: &Vec<&str>, depth: usize) -> (r: Option<&'a Json>)
    requires
        depth <= path@.len(),
    ensures
        r matches Some(v) ==> get_path(*j, keys_view(path@).subrange(depth as int, path@.len() as int)) == Some(*v),
        r is None ==> get_path(*j, keys_view(path@).subrange(depth as int, path@.len() as int)) is None,
    decreases path@.len() - depth,
{
    let ghost rest = keys_view(path@).subrange(depth as int, path@.len() as int);
    if depth == path.len() {
        return Some(j);
    }
    assert(rest.drop_first() =~= keys_view(path@).subrange(depth + 1, path@.len() as int));
    match get_field_exec(j, path[depth]) {
        Some(v) => get_path_exec(v, path, depth + 1),
        None => None,
    }
}

/// `j` with the string at `path[depth..]` replaced by `t`.
fn set_path_exec(j: Json, path: &Vec<&str>, depth: usize, t: &String) -> (r: Json)
    requires
        depth <= path@.len(),
        get_path(j, keys_view(path@).subrange(depth as int, path@.len() as int)) is Some,
    ensures
        set_path(j, keys_view(path@).subrange(depth as int, path@.len() as int), t@, r),
    decreases path@.len() - depth,
{
    let ghost rest = keys_view(path@).subrange(depth as int, path@.len() as int);
    if depth == path.len() {
        return Json::Str(t.clone());
    }
    assert(rest.drop_first() =~= keys_view(path@).subrange(depth + 1, path@.len() as int));
    match j {
        Json::Object(fs) => {
            let ghost a = fs@;
            let mut fs = fs;
            let k = find_key(&fs, path[depth]);
            let (key, v) = fs.remove(k);
            let nv = set_path_exec(v, path, depth + 1, t);
            fs.insert(k, (key, nv));
            proof {
                assert forall|i: int| 0 <= i < a.len() implies (#[trigger] a[i]).0 == fs@[i].0 by {
                    if i < k {
                        assert(fs@[i] == a[i]);
                    } else if i > k {
                        assert(fs@[i] == a[i]);
                    }
                }
                assert forall|i: int| 0 <= i < a.len() && i != k implies (#[trigger] a[i]).1 == fs@[i].1 by {
                    assert(fs@[i] == a[i]);
                }
            }
            Json::Object(fs)
        },
        other => other,
    }
}

fn fragment_keys() -> (r: Vec<&'static str>)
    ensures
        keys_view(r@) == fragment_path(),
{
    let r = vec!["CustomSettings", "shader_program", "main_pass", "fragment_shader"];
    assert(keys_view(r@) =~= fragment_path());
    r
}

fn name_keys() -> (r: Vec<&'static str>)
    ensures
        keys_view(r@) == name_path(),
{
    let r = vec!["CustomSettings", "shader_name"];
    assert(keys_view(r@) =~= name_path());
    r
}

/// The string at `path` of `j`, if there is one.
fn str_at_path<'a>(j: &'a Json, path: &Vec<&str>) -> (r: Option<&'a String>)
    ensures
        r matches Some(s) ==> str_of(get_path(*j, keys_view(path@))) == Some(s@),
        r is None ==> str_of(get_path(*j, keys_view(path@))) is None,
{
    assert(keys_view(path@).subrange(0, path@.len() as int) =~= keys_view(path@));
    match get_path_exec(j, path, 0) {
        Some(Json::Str(s)) => Some(s),
        _ => None,
    }
}

/// The device names of an effect.
fn effect_devices_exec(e: &Json) -> (r: Vec<String>)
    ensures
        names_view(r@) == effect_devices(*e),
{
    let mut out: Vec<String> = Vec::new();
    match get_field_exec(e, "ControllerZones") {
        Some(Json::Array(zs)) => {
            let mut i: usize = 0;
            assert(zs@.subrange(0, 0) =~= Seq::<Json>::empty());
            assert(names_view(out@) =~= descriptions(zs@.subrange(0, 0)));
            while i < zs.len()
                invariant
                    i <= zs@.len(),
                    names_view(out@) == descriptions(zs@.subrange(0, i as int)),
                decreases zs@.len() - i,
            {
                assert(zs@.subrange(0, i + 1).drop_last() =~= zs@.subrange(0, i as int));
                match get_field_exec(&zs[i], "description") {
                    Some(Json::Str(d)) => {
                        out.push(d.clone());
                    },
                    _ => {},
                }
                i = i + 1;
                assert(names_view(out@) =~= descriptions(zs@.subrange(0, i as int)));
            }
            assert(zs@.subrange(0, i as int) =~= zs@);
        },
        _ => {
            assert(names_view(out@) =~= Seq::<Seq<char>>::empty());
        },
    }
    out
}

/// How many times `x` occurs in `v`.
fn count_exec(v: &Vec<String>, x: &String) -> (r: usize)
    ensures
        r == count_of(names_view(v@), x@),
{
    let mut n: usize = 0;
    let mut i: usize = 0;
    assert(names_view(v@.subrange(0, 0)) =~= Seq::<Seq<char>>::empty());
    while i < v.len()
        invariant
            i <= v@.len(),
            n <= i,
            n == count_of(names_view(v@.subrange(0, i as int)), x@),
        decreases v@.len() - i,
    {
        assert(names_view(v@.subrange(0, i + 1)).drop_last() =~= names_view(v@.subrange(0, i as int)));
        assert(names_view(v@.subrange(0, i + 1)).last() == v@[i as int]@);
        if v[i].eq(x) {
            n = n + 1;
        }
        i = i + 1;
    }
    assert(v@.subrange(0, i as int) =~= v@);
    n
}

proof fn lemma_count_positive(s: Seq<Seq<char>>, x: Seq<char>)
    requires
        count_of(s, x) > 0,
    ensures
        exists|i: int| 0 <= i < s.len() && s[i] == x,
    decreases s.len(),
{
    if s.last() != x {
        lemma_count_positive(s.drop_last(), x);
        let i = choose|i: int| 0 <= i < s.drop_last().len() && s.drop_last()[i] == x;
        assert(s[i] == x);
    } else {
        assert(s[s.len() - 1] == x);
    }
}

/// Whether `a` and `b` hold the same names, each as often.
fn same_names_exec(a: &Vec<String>, b: &Vec<String>) -> (r: bool)
    ensures
        r == same_names(names_view(a@), names_view(b@)),
{
    let mut i: usize = 0;
    while i < a.len()
        invariant
            i <= a@.len(),
            forall|j: int| 0 <= j < i ==> count_of(names_view(a@), (#[trigger] a@[j])@) == count_of(names_view(b@), a@[j]@),
        decreases a@.len() - i,
    {
        if count_exec(a, &a[i]) != count_exec(b, &a[i]) {
            return false;
        }
        i = i + 1;
    }
    let mut i: usize = 0;
    while i < b.len()
        invariant
            i <= b@.len(),
            forall|j: int| 0 <= j < a@.len() ==> count_of(names_view(a@), (#[trigger] a@[j])@) == count_of(names_view(b@), a@[j]@),
            forall|j: int| 0 <= j < i ==> count_of(names_view(a@), (#[trigger] b@[j])@) == count_of(names_view(b@), b@[j]@),
        decreases b@.len() - i,
    {
        if count_exec(a, &b[i]) != count_exec(b, &b[i]) {
            return false;
        }
        i = i + 1;
    }
    proof {
        assert forall|x: Seq<char>| count_of(names_view(a@), x) == count_of(names_view(b@), x) by {
            if count_of(names_view(a@), x) > 0 {
                lemma_count_positive(names_view(a@), x);
                let j = choose|j: int| 0 <= j < names_view(a@).len() && names_view(a@)[j] == x;
                assert(a@[j]@ == x);
            } else if count_of(names_view(b@), x) > 0 {
                lemma_count_positive(names_view(b@), x);
                let j = choose|j: int| 0 <= j < names_view(b@).len() && names_view(b@)[j] == x;
                assert(b@[j]@ == x);
            }
        }
    }
    true
}


/// (name, device names, text) of each shader.
pub open spec fn records(ss: Seq<Shader>) -> Seq<(Seq<char>, Seq<Seq<char>>, Seq<char>)> {
    ss.map_values(|s: Shader| (s.name_view(), s.devices_view(), s.text_view()))
}

/// The shaders of a profile.
pub struct Shaders {
    shaders: Vec<Shader>,
}

impl Default for Shaders {
    fn default() -> (r: Self)
        ensures
            r.wf(),
            r.view() == Seq::<Shader>::empty(),
    {
        Shaders::new()
    }
}

impl Shaders {
    pub closed spec fn view(&self) -> Seq<Shader> {
        self.shaders@
    }

    pub closed spec fn wf(&self) -> bool {
        forall|i: int| 0 <= i < self.shaders@.len() ==> (#[trigger] self.shaders@[i]).wf()
    }

    /// No shaders.
    pub fn new() -> (r: Self)
        ensures
            r.wf(),
            r.view() == Seq::<Shader>::empty(),
    {
        Shaders { shaders: Vec::new() }
    }

    pub fn len(&self) -> (r: usize)
        ensures
            r == self.view().len(),
    {
        self.shaders.len()
    }

    /// The shaders, in order.
    pub fn iter(&self) -> (r: std::slice::Iter<'_, Shader>)
        ensures
            r.remaining().len() == self.view().len(),
            forall|i: int| 0 <= i < self.view().len() ==> *(#[trigger] r.remaining()[i]) == self.view()[i],
    {
        self.shaders.as_slice().iter()
    }

    /// The shader at `index`.
    pub fn get_shader(&mut self, index: usize) -> (r: &mut Shader)
        requires
            index < old(self).view().len(),
        ensures
            *r == old(self).view()[index as int],
            final(self).view() == old(self).view().update(index as int, *final(r)),
    {
        &mut self.shaders[index]
    }

    /// Replaces the shaders by those that the profile document `doc` holds:
    /// one for each effect that names a shader and holds its fragment text,
    /// in order, none with a parser attached.
    pub fn parse_from_profile(&mut self, doc: &Json)
        ensures
            final(self).wf(),
            records(final(self).view()) == loaded_shaders(document_effects(*doc)),
            forall|i: int| 0 <= i < final(self).view().len() ==> (#[trigger] final(self).view()[i]).parser_blobs() is None,
    {
        let mut out: Vec<Shader> = Vec::new();
        let name_path_keys = name_keys();
        let fragment_path_keys = fragment_keys();
        match get_field_exec(doc, "Effects") {
            Some(Json::Array(es)) => {
                let mut i: usize = 0;
                assert(es@.subrange(0, 0) =~= Seq::<Json>::empty());
                assert(records(out@) =~= loaded_shaders(es@.subrange(0, 0)));
                while i < es.len()
                    invariant
                        i <= es@.len(),
                        keys_view(name_path_keys@) == name_path(),
                        keys_view(fragment_path_keys@) == fragment_path(),
                        records(out@) == loaded_shaders(es@.subrange(0, i as int)),
                        forall|j: int| 0 <= j < out@.len() ==> (#[trigger] out@[j]).parser_blobs() is None,
                        forall|j: int| 0 <= j < out@.len() ==> (#[trigger] out@[j]).wf(),
                    decreases es@.len() - i,
                {
                    assert(es@.subrange(0, i + 1).drop_last() =~= es@.subrange(0, i as int));
                    let e = &es[i];
                    let name = str_at_path(e, &name_path_keys);
                    let fragment = str_at_path(e, &fragment_path_keys);
                    match (name, fragment) {
                        (Some(n), Some(f)) => {
                            let devices = effect_devices_exec(e);
                            let sh = Shader::new(n.clone(), devices, f.clone());
                            out.push(sh);
                        },
                        _ => {},
                    }
                    i = i + 1;
                    assert(records(out@) =~= loaded_shaders(es@.subrange(0, i as int)));
                }
                assert(es@.subrange(0, i as int) =~= es@);
            },
            _ => {
                assert(records(out@) =~= Seq::<(Seq<char>, Seq<Seq<char>>, Seq<char>)>::empty());
            },
        }
        self.shaders = out;
    }

    /// The text of the last shader named `name` whose device names are `devs`.
    fn matching_text_exec(&self, name: &String, devs: &Vec<String>) -> (r: Option<&String>)
        ensures
            r matches Some(t) ==> matching_text(self.view(), name@, names_view(devs@)) == Some(t@),
            r is None ==> matching_text(self.view(), name@, names_view(devs@)) is None,
    {
        let mut found: Option<&String> = None;
        let mut i: usize = 0;
        assert(self.shaders@.subrange(0, 0) =~= Seq::<Shader>::empty());
        while i < self.shaders.len()
            invariant
                i <= self.shaders@.len(),
                found matches Some(t) ==> matching_text(self.shaders@.subrange(0, i as int), name@, names_view(devs@)) == Some(t@),
                found is None ==> matching_text(self.shaders@.subrange(0, i as int), name@, names_view(devs@)) is None,
            decreases self.shaders@.len() - i,
        {
            assert(self.shaders@.subrange(0, i + 1).drop_last() =~= self.shaders@.subrange(0, i as int));
            let sh = &self.shaders[i];
            if sh.name.eq(name) && same_names_exec(&sh.device_names, devs) {
                found = Some(&sh.shader_str);
            }
            i = i + 1;
        }
        assert(self.shaders@.subrange(0, i as int) =~= self.shaders@);
        found
    }

    /// Effect `e` with its fragment text replaced by that of the matching
    /// shader, if it has valid settings and one matches.
    fn save_effect(&self, e: Json) -> (r: Json)
        ensures
            saved_effect(self.view(), e, r),
    {
        let name_path_keys = name_keys();
        let fragment_path_keys = fragment_keys();
        let text = match (str_at_path(&e, &name_path_keys), str_at_path(&e, &fragment_path_keys)) {
            (Some(n), Some(_)) => {
                let devices = effect_devices_exec(&e);
                self.matching_text_exec(n, &devices)
            },
            _ => None,
        };
        match text {
            Some(t) => {
                assert(keys_view(fragment_path_keys@).subrange(0, fragment_path_keys@.len() as int) =~= fragment_path());
                set_path_exec(e, &fragment_path_keys, 0, t)
            },
            None => e,
        }
    }

    /// The profile document `doc` with the fragment text of each effect whose
    /// shader name and device names (in any order) match a shader here
    /// replaced by that shader's text; all else in it is kept.
    pub fn save_to_profile(&self, doc: Json) -> (r: Json)
        ensures
            saved_document(self.view(), doc, r),
    {
        match doc {
            Json::Object(fs) => {
                let ghost a = fs@;
                let mut fs = fs;
                let k = find_key(&fs, "Effects");
                if k >= fs.len() {
                    return Json::Object(fs);
                }
                match &fs[k].1 {
                    Json::Array(_) => {},
                    _ => {
                        return Json::Object(fs);
                    },
                }
                let (key, v) = fs.remove(k);
                match v {
                    Json::Array(es) => {
                        let ghost es_moved = es;
                        let ghost old_es = es@;
                        let mut es = es;
                        let mut new_es: Vec<Json> = Vec::new();
                        let n = es.len();
                        let mut i: usize = 0;
                        while i < n
                            invariant
                                i <= n == old_es.len(),
                                es@ == old_es.subrange(i as int, n as int),
                                new_es@.len() == i,
                                forall|j: int| 0 <= j < i ==> saved_effect(self.view(), #[trigger] old_es[j], new_es@[j]),
                            decreases n - i,
                        {
                            let e = es.remove(0);
                            let ne = self.save_effect(e);
                            new_es.push(ne);
                            i = i + 1;
                            assert(es@ =~= old_es.subrange(i as int, n as int));
                        }
                        fs.insert(k, (key, Json::Array(new_es)));
                        proof {
                            assert forall|i: int| 0 <= i < a.len() implies (#[trigger] a[i]).0 == fs@[i].0 by {
                                assert(fs@[i] == a[i] || i == k);
                            }
                            assert forall|i: int| 0 <= i < a.len() && i != k implies (#[trigger] a[i]).1 == fs@[i].1 by {
                                assert(fs@[i] == a[i]);
                            }
                            assert(fs@[k as int].1 == Json::Array(new_es));
                            assert(a[k as int].1 == Json::Array(es_moved));
                            assert(old_es == es_moved@);
                            assert(a.len() == fs@.len());
                        }
                        Json::Object(fs)
                    },
                    other => {
                        fs.insert(k, (key, other));
                        Json::Object(fs)
                    },
                }
            },
            other => other,
        }
    }
}

} // verus!
