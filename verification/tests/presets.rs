//! Reading presets, the built-in ones, and what the shader gets of them.

use bp_photos::builtins::{builtins, NAMES};
use bp_photos::import::{
    adjustments, extension, group_for, import_folder, is_imported, is_preset_file, li_items, load_all, load_entry,
    load_file, load_text, lua_string_field, numbers, parse_cube, parse_lrtemplate, parse_xmp, unescape,
    value_from_str, Content, Preset, PresetFile, Setting, Settings,
};
use bp_photos::preset::{
    midtone_wheel, uniforms, Adjustments, Balance, CurvePoint, MidtoneWheel, Sliders, Triple, BANDS,
};

fn chars(s: &str) -> Vec<char> {
    s.chars().collect()
}

fn texts(list: &[&str]) -> Vec<String> {
    list.iter().map(|s| s.to_string()).collect()
}

fn number(s: &Option<String>) -> f32 {
    s.as_ref().map_or(0.0, |n| n.parse().unwrap())
}

fn curve(points: &[CurvePoint]) -> Vec<[f32; 2]> {
    points.iter().map(|p| [p.x.parse().unwrap(), p.y.parse().unwrap()]).collect()
}

fn rgb(t: &Triple) -> [f32; 3] {
    [t.r.parse().unwrap(), t.g.parse().unwrap(), t.b.parse().unwrap()]
}

fn sliders(p: &Preset) -> &Adjustments {
    match &p.content {
        Content::Sliders(a) => a,
        Content::Table(_) => panic!("a preset with sliders was expected"),
    }
}

#[test]
fn parses_xmp_attributes_and_curves() {
    let xml = r#"<x:xmpmeta><rdf:RDF><rdf:Description crs:Exposure2012="+0.50" crs:Contrast2012="-12"
            crs:ConvertToGrayscale="True" crs:HueAdjustmentBlue="-20">
            <crs:Name><rdf:Alt><rdf:li xml:lang="x-default">My Look</rdf:li></rdf:Alt></crs:Name>
            <crs:ToneCurvePV2012><rdf:Seq><rdf:li>0, 20</rdf:li><rdf:li>255, 240</rdf:li></rdf:Seq></crs:ToneCurvePV2012>
            </rdf:Description></rdf:RDF></x:xmpmeta>"#;
    let (name, s) = parse_xmp(xml);
    let a = adjustments(&s);
    assert_eq!(name.as_deref(), Some("My Look"));
    assert_eq!(number(&a.exposure), 0.5);
    assert_eq!(number(&a.contrast), -12.0);
    assert!(a.grayscale);
    assert_eq!(number(&a.bands[5].hue), -20.0);
    assert_eq!(curve(&a.curve), vec![[0.0, 20.0], [255.0, 240.0]]);
}

#[test]
fn parses_lrtemplate() {
    let lua = r#"s = { id = "X", internalName = "Old Look", title = "Old Look",
            value = { settings = { Exposure2012 = 0.3, Vibrance = 15, ToneCurvePV2012 = { 0, 10, 255, 250, }, WhiteBalance = "As Shot", }, uuid = "U", }, version = 0, }"#;
    let (name, s) = parse_lrtemplate(lua);
    let a = adjustments(&s);
    assert_eq!(name.as_deref(), Some("Old Look"));
    assert_eq!(number(&a.exposure), 0.3);
    assert_eq!(number(&a.vibrance), 15.0);
    assert_eq!(a.curve.len(), 2);
}

#[test]
fn parses_cube() {
    let mut text = String::from("TITLE \"Id\"\nLUT_3D_SIZE 2\n");
    for b in 0..2 {
        for g in 0..2 {
            for r in 0..2 {
                text += &format!("{r} {g} {b}\n");
            }
        }
    }
    let (title, lut) = parse_cube(&text).unwrap();
    assert_eq!(title.as_deref(), Some("Id"));
    assert_eq!(rgb(&lut.data[1].value), [1.0, 0.0, 0.0]);
}

#[test]
fn cubes_say_what_is_wrong_with_them() {
    let error = |t: &str| parse_cube(t).err().unwrap();
    assert_eq!(error("LUT_1D_SIZE 4\n"), "1D LUTs are not supported");
    assert_eq!(error("LUT_3D_SIZE x\n"), "bad LUT_3D_SIZE");
    assert_eq!(error("LUT_3D_SIZE 2\n0 0 0\n"), "expected 2³ entries, found 1");
}

#[test]
fn cube_entries_keep_the_domain_before_them() {
    let mut text = String::from("LUT_3D_SIZE 2\nDOMAIN_MAX 2 2 2\n");
    for _ in 0..8 {
        text += "1 1 1\n";
    }
    let (title, lut) = parse_cube(&text).unwrap();
    assert_eq!(title, None);
    assert_eq!(lut.size, 2);
    assert_eq!(rgb(&lut.domains[lut.data[0].domain].max), [2.0, 2.0, 2.0]);
    assert_eq!(rgb(&lut.domains[lut.data[0].domain].min), [0.0, 0.0, 0.0]);
}

#[test]
fn preset_files_are_known_by_their_extension() {
    assert!(is_preset_file("a.XMP"));
    assert!(is_preset_file("b.lrtemplate"));
    assert!(is_preset_file("c.cube"));
    assert!(!is_preset_file("cube"));
    assert!(!is_preset_file("d.txt"));
    assert_eq!(extension("Photo.JPG").as_deref(), Some("jpg"));
    assert_eq!(extension(".hidden"), None);
}

#[test]
fn groups_are_named_after_folders() {
    let root = texts(&["home", "presets"]);
    assert_eq!(group_for(&root, &texts(&["home", "presets", "Film LUTs", "bw", "x.cube"])), "Film LUTs / bw");
    assert_eq!(group_for(&root, &texts(&["home", "presets", "x.cube"])), "Imported");
    assert_eq!(group_for(&root, &texts(&["elsewhere", "x.cube"])), "Imported");
}

#[test]
fn values_are_numbers_or_texts() {
    assert!(matches!(value_from_str(&chars(" +0.50 ")), Setting::Num(n) if n == "0.50"));
    assert!(matches!(value_from_str(&chars("As Shot")), Setting::Text(t) if t == "As Shot"));
    assert_eq!(numbers(&chars("0, 20  x +3")), ["0", "20", "3"]);
    assert_eq!(unescape(&chars("a &lt;b&gt; &quot;&apos;&amp;lt;")), chars("a <b> \"'&lt;"));
    assert_eq!(li_items(&chars("<rdf:li>1</rdf:li><rdf:li a=\"b\">2</rdf:li>")), ["1", "2"]);
    assert_eq!(lua_string_field(&chars("title = \"T\","), "title").as_deref(), Some("T"));
}

#[test]
fn later_settings_replace_earlier_ones() {
    let mut s = Settings::new();
    assert!(s.is_empty());
    s.insert("Dehaze".to_string(), Setting::Num("1".to_string()));
    s.insert("Dehaze".to_string(), Setting::Num("2".to_string()));
    assert!(matches!(s.get("Dehaze"), Some(Setting::Num(n)) if n == "2"));
    assert!(s.get("Tint").is_none());
}

#[test]
fn white_balance_is_relative_absolute_or_as_shot() {
    let of = |attributes: &str| adjustments(&parse_xmp(attributes).1).temperature;
    assert!(matches!(of("crs:IncrementalTemperature=\"12\" crs:Temperature=\"6000\""), Balance::Relative(n) if n == "12"));
    assert!(matches!(of("crs:Temperature=\"6000\""), Balance::Absolute(n) if n == "6000"));
    assert!(matches!(of("crs:Temperature=\"6000\" crs:WhiteBalance=\"As Shot\""), Balance::AsShot));
    assert!(matches!(of("crs:Tint=\"1\""), Balance::AsShot));
}

#[test]
fn files_are_loaded_by_their_extension() {
    let xmp = load_text("crs:Dehaze=\"10\"", "Look.xmp", "G").ok().unwrap();
    assert_eq!((xmp.name.as_str(), xmp.group.as_str()), ("Look", "G"));
    assert_eq!(number(&sliders(&xmp).dehaze), 10.0);
    let error = |file: &str| load_text("nothing", file, "G").err().unwrap();
    assert_eq!(error("a.xmp"), "no Camera Raw settings found");
    assert_eq!(error("a.lrtemplate"), "no develop settings found");
    assert_eq!(error("a.txt"), "unsupported file type");
    assert_eq!(error("a.cube"), "expected 0³ entries, found 0");
    // Bytes that are no UTF-8 do not stop a preset from being read.
    let broken = [b"crs:Dehaze=\"5\" \xff".as_slice()].concat();
    assert!(load_file(&broken, "b.xmp", "G").is_ok());
}

#[test]
fn entries_report_errors_with_their_path() {
    let root = texts(&["p"]);
    let path = texts(&["p", "Film", "a.xmp"]);
    let read = Ok(b"crs:Dehaze=\"10\"".to_vec());
    let p = load_entry(&root, &path, "p/Film/a.xmp", &read).ok().unwrap();
    assert_eq!(p.group, "Film");
    let e = load_entry(&root, &path, "p/Film/a.xmp", &Err("denied".to_string())).err().unwrap();
    assert_eq!(e, "p/Film/a.xmp: denied");
    let e = load_entry(&root, &path, "p/Film/a.xmp", &Ok(Vec::new())).err().unwrap();
    assert_eq!(e, "p/Film/a.xmp: no Camera Raw settings found");
}

#[test]
fn folders_are_loaded_in_the_order_of_their_paths() {
    let file = |path: &[&str], text: &str| PresetFile { path: texts(path), shown: path.join("/"), read: Ok(text.as_bytes().to_vec()) };
    let good = "crs:Dehaze=\"10\"";
    let mut files = vec![
        file(&["p", "b.xmp"], good),
        // A folder comes where its name does, before files with longer names.
        file(&["p", "a-z.xmp"], good),
        file(&["p", "a", "z.xmp"], good),
        file(&["p", "c.xmp"], ""),
        file(&["p", "B.txt"], good),
    ];
    files.push(PresetFile { path: texts(&["p", "a", "y.xmp"]), shown: "y".to_string(), read: Err("denied".to_string()) });
    let (found, errors) = load_all(&texts(&["p"]), &files);
    let names: Vec<(usize, &str, &str)> = found.iter().map(|(i, p)| (*i, p.name.as_str(), p.group.as_str())).collect();
    assert_eq!(names, [(2, "z", "a"), (1, "a-z", "Imported"), (0, "b", "Imported")]);
    assert_eq!(errors, ["p/B.txt: unsupported file type", "y: denied", "p/c.xmp: no Camera Raw settings found"]);
    assert!(load_all(&[], &[]).0.is_empty());
}

#[test]
fn imported_presets_have_a_folder() {
    assert_eq!(import_folder(true, Some("Looks")), "Looks");
    assert_eq!(import_folder(true, None), "Imported");
    assert_eq!(import_folder(false, Some("a.xmp")), "Imported");
    assert!(is_imported(&texts(&["x", "y"]), "y"));
    assert!(!is_imported(&texts(&["x", "y"]), "z"));
}

#[test]
fn the_first_builtin_changes_nothing() {
    let all = builtins();
    assert_eq!(all.len(), 29);
    assert_eq!(all[0].name, "Original");
    let a = sliders(&all[0]);
    assert!(a.exposure.is_none() && a.contrast.is_none() && a.vignette.is_none() && !a.grayscale);
    assert!(a.curve.is_empty() && a.curve_red.is_empty());
    assert!(matches!(a.temperature, Balance::AsShot));
    assert!(a.bands.iter().all(|b| b.hue.is_none() && b.saturation.is_none() && b.luminance.is_none() && b.gray.is_none()));
}

#[test]
fn builtins_have_their_looks() {
    let all = builtins();
    let named = |n: &str| all.iter().find(|p| p.name == n).unwrap();
    let sunset = sliders(named("Warm Sunset"));
    assert!(matches!(&sunset.temperature, Balance::Relative(n) if n == "35"));
    assert!(matches!(&sunset.tint, Balance::Relative(n) if n == "8"));
    assert_eq!(number(&sunset.highlight_tint.hue), 40.0);
    assert_eq!(number(&sunset.highlight_tint.saturation), 25.0);
    let airy = sliders(named("Soft & Airy"));
    assert_eq!(number(&airy.exposure), 0.3);
    assert_eq!(curve(&airy.curve), vec![[0.0, 20.0], [128.0, 136.0], [255.0, 250.0]]);
    let teal = sliders(named("Teal & Orange"));
    assert_eq!(number(&teal.bands[5].hue), -15.0);
    assert_eq!(number(&teal.bands[3].saturation), -30.0);
    let noir = sliders(named("Noir"));
    assert!(noir.grayscale);
    assert_eq!(number(&noir.bands[5].gray), -40.0);
    assert_eq!(number(&noir.grain), 35.0);
    let vintage = sliders(named("Vintage"));
    assert_eq!(curve(&vintage.curve_blue), vec![[0.0, 25.0], [255.0, 220.0]]);
    assert_eq!(named("Noir").group, "Black & White");
    assert!(NAMES.iter().all(|(_, g)| ["Basic", "Colour", "Film", "Moody", "Black & White"].contains(g)));
}

#[test]
fn the_global_wheel_stands_in_for_the_midtones() {
    assert!(midtone_wheel(true, false) == MidtoneWheel::Global);
    assert!(midtone_wheel(true, true) == MidtoneWheel::Midtone);
    assert!(midtone_wheel(false, false) == MidtoneWheel::Midtone);
}

#[test]
fn sliders_have_their_places_in_the_shader() {
    let mut hsl = [[0.0f32; 3]; 8];
    hsl[7] = [0.1, 0.2, 0.3];
    let s = Sliders {
        exposure: 1.0,
        contrast: 2.0,
        highlights: 3.0,
        shadows: 4.0,
        whites: 5.0,
        blacks: 6.0,
        temperature: 7.0,
        tint: 8.0,
        vibrance: 9.0,
        saturation: 10.0,
        clarity: 11.0,
        dehaze: 12.0,
        vignette: 13.0,
        grain: 14.0,
        shadow_tint: [15.0, 16.0],
        highlight_tint: [17.0, 18.0],
        midtone_tint: [19.0, 20.0],
        tint_balance: 21.0,
        hsl,
        gray_mix: [31.0, 32.0, 33.0, 34.0, 35.0, 36.0, 37.0, 38.0],
        grayscale: true,
        lut: false,
    };
    let u = uniforms(&s, 0.0, 1.0);
    assert_eq!(u[0], [1.0, 2.0, 3.0, 4.0]);
    assert_eq!(u[1], [5.0, 6.0, 7.0, 8.0]);
    assert_eq!(u[2], [9.0, 10.0, 11.0, 12.0]);
    assert_eq!(u[3], [13.0, 14.0, 1.0, 0.0]);
    assert_eq!(u[4], [15.0, 16.0, 17.0, 18.0]);
    assert_eq!(u[5], [21.0, 19.0, 20.0, 0.0]);
    assert_eq!(u[13], [0.1, 0.2, 0.3, 0.0]);
    assert_eq!(u[15], [35.0, 36.0, 37.0, 38.0]);
    assert_eq!(BANDS[7], "Magenta");
}
