use shader_tuner::decimal::{float_to_string_decimal, Decimal};
use shader_tuner::history::{Blob, BlobsEdit, EditHistory};
use shader_tuner::json::Json;
use shader_tuner::lava_lamp::{blob_from_picks, LavaLampParser};
use shader_tuner::profile::{Shader, Shaders};

fn dec(negative: bool, mantissa: u64, scale: u32) -> Decimal {
    Decimal { negative, mantissa, scale }
}

fn whole(n: u64) -> Decimal {
    dec(false, n, 0)
}

fn blob(r: Decimal, g: Decimal, b: Decimal, size: Decimal, speed: Decimal, smoothness: Decimal) -> Blob {
    Blob { color: [r, g, b], size, speed, smoothness }
}

fn s(x: &str) -> String {
    x.to_string()
}

fn obj(members: Vec<(&str, Json)>) -> Json {
    Json::Object(members.into_iter().map(|(k, v)| (s(k), v)).collect())
}

fn effect(name: &str, zones: &[&str], fragment: &str) -> Json {
    let zones = zones.iter().map(|d| obj(vec![("description", Json::Str(s(d)))])).collect();
    obj(vec![
        ("ControllerZones", Json::Array(zones)),
        ("Other", Json::Number(s("7"))),
        (
            "CustomSettings",
            obj(vec![
                ("shader_name", Json::Str(s(name))),
                (
                    "shader_program",
                    obj(vec![("main_pass", obj(vec![("fragment_shader", Json::Str(s(fragment)))]))]),
                ),
            ]),
        ),
    ])
}

fn document(effects: Vec<Json>) -> Json {
    obj(vec![("Version", Json::Number(s("3"))), ("Effects", Json::Array(effects))])
}

const TWO_BLOBS: &str = "#define numBlobs 2\nstruct Blob { vec2 p; };\nvoid initializeBlobs() {\n    blobs[0] = Blob(vec2(0), vec3(1.0, 0.5, 0.0), 10.0, 5.0, 2.0);\n    blobs[1] = Blob(vec2(0.1, 0.2), vec3(0.0, 0.25, 1.0), 20.5, 7.0, 3.0);\n}\nvoid main() {}\n";

fn fragment_of(effect: &Json) -> String {
    let Json::Object(members) = effect else { panic!("effect is no object") };
    let settings = &members.iter().find(|(k, _)| k == "CustomSettings").unwrap().1;
    let Json::Object(settings) = settings else { panic!() };
    let program = &settings.iter().find(|(k, _)| k == "shader_program").unwrap().1;
    let Json::Object(program) = program else { panic!() };
    let pass = &program.iter().find(|(k, _)| k == "main_pass").unwrap().1;
    let Json::Object(pass) = pass else { panic!() };
    match &pass.iter().find(|(k, _)| k == "fragment_shader").unwrap().1 {
        Json::Str(t) => t.clone(),
        _ => panic!("fragment is no string"),
    }
}

fn effects_of(doc: &Json) -> &Vec<Json> {
    let Json::Object(members) = doc else { panic!() };
    match &members.iter().find(|(k, _)| k == "Effects").unwrap().1 {
        Json::Array(es) => es,
        _ => panic!(),
    }
}

#[test]
fn formats_integral_value_with_fraction() {
    assert_eq!(float_to_string_decimal(whole(10)), "10.0");
    assert_eq!(float_to_string_decimal(whole(0)), "0.0");
}

#[test]
fn formats_fractions_and_signs() {
    assert_eq!(float_to_string_decimal(dec(false, 25, 2)), "0.25");
    assert_eq!(float_to_string_decimal(dec(true, 35, 1)), "-3.5");
    assert_eq!(float_to_string_decimal(dec(false, 1005, 3)), "1.005");
}

#[test]
fn load_then_parse_yields_records_in_source_order() {
    let doc = document(vec![effect("Lava", &["GPU", "Case"], TWO_BLOBS)]);
    let mut shaders = Shaders::new();
    shaders.parse_from_profile(&doc);
    assert_eq!(shaders.len(), 1);
    let shader = shaders.get_shader(0);
    assert_eq!(shader.name(), "Lava");
    assert_eq!(shader.device_names(), &[s("GPU"), s("Case")]);
    shader.attach_parser();
    shader.parse();
    let Some(shader_tuner::profile::ShaderParser::LavaLamp(p)) = &shader.parser else { panic!() };
    assert_eq!(
        p.blobs(),
        &vec![
            blob(whole(1), dec(false, 5, 1), whole(0), whole(10), whole(5), whole(2)),
            blob(whole(0), dec(false, 25, 2), whole(1), dec(false, 205, 1), whole(7), whole(3)),
        ]
    );
}

#[test]
fn load_skips_effects_without_shader_settings() {
    let broken = obj(vec![("CustomSettings", obj(vec![("shader_name", Json::Str(s("X")))]))]);
    let no_zones = obj(vec![(
        "CustomSettings",
        obj(vec![
            ("shader_name", Json::Str(s("Bare"))),
            ("shader_program", obj(vec![("main_pass", obj(vec![("fragment_shader", Json::Str(s("t")))]))])),
        ]),
    )]);
    let doc = document(vec![broken, Json::Null, no_zones]);
    let mut shaders = Shaders::new();
    shaders.parse_from_profile(&doc);
    assert_eq!(shaders.len(), 1);
    let shader = shaders.get_shader(0);
    assert_eq!(shader.name(), "Bare");
    assert!(shader.device_names().is_empty());
    assert_eq!(shader.shader_str, "t");
}

#[test]
fn load_without_effects_gives_no_shaders() {
    let mut shaders = Shaders::new();
    shaders.parse_from_profile(&document(vec![effect("A", &[], "x")]));
    assert_eq!(shaders.len(), 1);
    shaders.parse_from_profile(&Json::Array(vec![]));
    assert_eq!(shaders.len(), 0);
}

#[test]
fn delete_then_undo_restores_all_records() {
    let mut p = LavaLampParser::new();
    p.parse("Blob(vec2(0), vec3(1, 0, 0), 1, 2, 3)\nBlob(vec2(0), vec3(0, 1, 0), 4, 5, 6)\nBlob(vec2(0), vec3(0, 0, 1), 7, 8, 9)\n");
    let before = p.blobs().clone();
    assert_eq!(before.len(), 3);
    p.delete_blob(0);
    assert_eq!(p.blobs().len(), 2);
    assert_eq!(p.blobs()[0], before[1]);
    p.undo();
    assert_eq!(p.blobs(), &before);
}

#[test]
fn export_single_record_against_empty_generator() {
    let mut p = LavaLampParser::new();
    p.add(blob(whole(1), whole(0), whole(0), whole(10), whole(5), whole(2)));
    let out = p.export("#define numBlobs 0\nvoid initializeBlobs() {\n}\nvoid main() {}\n");
    assert!(out.contains("#define numBlobs 1"));
    assert!(out.contains("vec3(1.0, 0.0, 0.0)"));
    assert_eq!(
        out,
        "#define numBlobs 1\nvoid initializeBlobs() {\n    blobs[0] = Blob(vec2(0), vec3(1.0, 0.0, 0.0), 10.0, 5.0, 2.0);\n}\nvoid main() {}\n"
    );
}

#[test]
fn save_without_match_keeps_document() {
    let make = || document(vec![effect("Lava", &["GPU", "Case"], "old"), effect("Other", &[], "keep")]);
    let mut shaders = Shaders::new();
    shaders.parse_from_profile(&make());
    shaders.get_shader(0).shader_str = s("new text");
    let unrelated = Shaders::new();
    assert_eq!(unrelated.save_to_profile(make()), make());
    let mut renamed = Shaders::new();
    renamed.parse_from_profile(&document(vec![effect("Lava", &["GPU"], "old")]));
    renamed.get_shader(0).shader_str = s("new text");
    assert_eq!(renamed.save_to_profile(make()), make());
}

#[test]
fn save_replaces_only_matching_fragment() {
    let make = || {
        document(vec![
            effect("Lava", &["GPU", "Case"], "old"),
            effect("Lava", &["GPU"], "other devices"),
            effect("Plasma", &["Case", "GPU"], "other name"),
        ])
    };
    let mut shaders = Shaders::new();
    shaders.parse_from_profile(&document(vec![effect("Lava", &["Case", "GPU"], "old")]));
    shaders.get_shader(0).shader_str = s("new text");
    let saved = shaders.save_to_profile(make());
    let es = effects_of(&saved);
    assert_eq!(fragment_of(&es[0]), "new text");
    assert_eq!(es[1], effects_of(&make())[1]);
    assert_eq!(es[2], effects_of(&make())[2]);
    let mut expected = make();
    if let Json::Object(members) = &mut expected {
        members[1].1 = Json::Array(vec![
            effect("Lava", &["GPU", "Case"], "new text"),
            effect("Lava", &["GPU"], "other devices"),
            effect("Plasma", &["Case", "GPU"], "other name"),
        ]);
    }
    assert_eq!(saved, expected);
}

#[test]
fn export_then_parse_gives_back_records() {
    let records = vec![
        blob(dec(false, 25, 2), whole(1), dec(true, 5, 1), whole(10), dec(false, 125, 2), whole(0)),
        blob(whole(0), whole(0), whole(1), dec(false, 3, 3), whole(99), whole(25)),
    ];
    let mut p = LavaLampParser::new();
    for r in &records {
        p.add(*r);
    }
    let text = p.export("#define numBlobs 7\nvoid initializeBlobs() {\n  old();\n}\n");
    let mut q = LavaLampParser::new();
    q.parse(&text);
    assert_eq!(q.blobs(), &records);
}

#[test]
fn export_twice_is_stable() {
    let mut p = LavaLampParser::new();
    p.parse(TWO_BLOBS);
    let once = p.export(TWO_BLOBS);
    let twice = p.export(&once);
    assert_eq!(once, twice);
    assert!(once.contains("void main() {}"));
    assert!(once.contains("struct Blob { vec2 p; };"));
}

#[test]
fn undo_redo_and_new_edit_discards_redo() {
    let mut p = LavaLampParser::new();
    let a = blob(whole(1), whole(1), whole(1), whole(1), whole(1), whole(1));
    let b = blob(whole(2), whole(2), whole(2), whole(2), whole(2), whole(2));
    p.add(a);
    p.mutate_blob(0, b);
    assert_eq!(p.blobs(), &vec![b]);
    p.undo();
    assert_eq!(p.blobs(), &vec![a]);
    p.redo();
    assert_eq!(p.blobs(), &vec![b]);
    p.undo();
    p.add(b);
    p.redo();
    assert_eq!(p.blobs(), &vec![a, b]);
    p.undo();
    p.undo();
    assert!(p.blobs().is_empty());
    p.undo();
    assert!(p.blobs().is_empty());
}

#[test]
fn edit_history_records_displaced_values() {
    let a = blob(whole(1), whole(1), whole(1), whole(1), whole(1), whole(1));
    let b = blob(whole(2), whole(2), whole(2), whole(2), whole(2), whole(2));
    let mut target = vec![a];
    let mut h = EditHistory::new();
    h.edit(&mut target, BlobsEdit::MutateBlob { index: 0, old: b, new: b });
    assert_eq!(target, vec![b]);
    h.undo(&mut target);
    assert_eq!(target, vec![a]);
    let mut c = BlobsEdit::DeleteBlob(0, b);
    c.edit(&mut target);
    assert_eq!(c, BlobsEdit::DeleteBlob(0, a));
    assert!(target.is_empty());
}

#[test]
fn add_on_empty_uses_zero_record() {
    let mut p = LavaLampParser::new();
    p.add_blob();
    assert_eq!(p.blobs(), &vec![blob(whole(0), whole(0), whole(0), whole(0), whole(0), whole(0))]);
}

#[test]
fn add_samples_fields_of_existing_records() {
    let a = blob(whole(1), whole(2), whole(3), whole(4), whole(5), whole(6));
    let b = blob(whole(7), whole(8), whole(9), whole(10), whole(11), whole(12));
    let mut p = LavaLampParser::new();
    p.add(a);
    p.add(b);
    for _ in 0..20 {
        let n = p.new_blob();
        assert!(n.color == a.color || n.color == b.color);
        assert!(n.size == a.size || n.size == b.size);
        assert!(n.speed == a.speed || n.speed == b.speed);
        assert!(n.smoothness == a.smoothness || n.smoothness == b.smoothness);
    }
    p.add_blob();
    assert_eq!(p.blobs().len(), 3);
    let mixed = blob_from_picks(p.blobs(), [1, 0, 1, 0]);
    assert_eq!(mixed, blob(whole(7), whole(8), whole(9), whole(4), whole(11), whole(6)));
}

#[test]
fn parse_skips_lines_that_are_no_records() {
    let mut p = LavaLampParser::new();
    p.parse("Blob(vec2(0), vec3(1, 2), 1, 2, 3)\nBlob(vec2(0), vec3(1, x, 2, 3), 1, 2, 3)\nBlob(vec2(0), vec3(1,2,3), -1, 2, 3)\nnothing\r\n Blob ( vec2(a),vec3( 4 , 5 ,6 ),1.5, 2., .5 )  \r\n");
    assert_eq!(
        p.blobs(),
        &vec![
            blob(whole(1), whole(2), whole(3), whole(1), whole(2), whole(3)),
            blob(whole(4), whole(5), whole(6), dec(false, 15, 1), whole(2), dec(false, 5, 1)),
        ]
    );
}

#[test]
fn shader_parse_unescapes_line_feeds() {
    let mut shader = Shader::new(
        s("Lava"),
        vec![],
        s("x\\nBlob(vec2(0), vec3(1, 2, 3), 1, 2, 3)\\nBlob(vec2(0), vec3(1, 2, 3), 4, 5, 6)"),
    );
    shader.parse();
    assert!(shader.parser.is_none());
    shader.attach_parser();
    shader.parse();
    let Some(shader_tuner::profile::ShaderParser::LavaLamp(p)) = &shader.parser else { panic!() };
    assert_eq!(p.blobs().len(), 2);
}

#[test]
fn shader_export_rewrites_text() {
    let mut shader = Shader::new(s("Lava"), vec![s("GPU")], s("#define numBlobs 9\nvoid initializeBlobs() {\n}\n"));
    shader.export();
    assert_eq!(shader.shader_str, "#define numBlobs 9\nvoid initializeBlobs() {\n}\n");
    shader.attach_parser();
    shader.export();
    assert_eq!(shader.shader_str, "#define numBlobs 0\nvoid initializeBlobs() {\n}\n");
}

#[test]
fn defaults_are_empty() {
    let p = LavaLampParser::default();
    assert!(p.blobs().is_empty());
    let shaders = Shaders::default();
    assert_eq!(shaders.len(), 0);
    assert_eq!(shaders.iter().count(), 0);
}

#[test]
fn directive_is_rewritten_everywhere_and_stays_put() {
    let mut p = LavaLampParser::new();
    p.add(blob(whole(1), whole(2), whole(3), whole(4), whole(5), whole(6)));
    let base = "#define numBlobs 12
x #define numBlobs 3
#define numBlobs none
";
    let once = p.export(base);
    assert_eq!(once, "#define numBlobs 1
x #define numBlobs 1
#define numBlobs none
");
    assert_eq!(p.export(&once), once);
}

#[test]
fn long_fractions_are_cut_to_what_fits() {
    let mut p = LavaLampParser::new();
    p.parse("Blob(vec2(0), vec3(0.12345678901234567890123, 12345.6789012345678901, 1), 1, 2, 3)\nBlob(vec2(0), vec3(1, 1, 1), 1234567890123456789, 2, 3)\n");
    assert_eq!(
        p.blobs(),
        &vec![blob(
            dec(false, 123456789012345678, 18),
            dec(false, 123456789012345678, 13),
            whole(1),
            whole(1),
            whole(2),
            whole(3)
        )]
    );
}

#[test]
fn sampled_add_is_undone() {
    let a = blob(whole(1), whole(2), whole(3), whole(4), whole(5), whole(6));
    let mut p = LavaLampParser::new();
    p.add(a);
    p.add_blob();
    assert_eq!(p.blobs(), &vec![a, a]);
    p.undo();
    assert_eq!(p.blobs(), &vec![a]);
    p.redo();
    assert_eq!(p.blobs(), &vec![a, a]);
}
