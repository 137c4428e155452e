use outliers::Outliers;

fn text(bytes: &[u8]) -> &str {
    std::str::from_utf8(bytes).unwrap()
}

fn fences_text(t: (i128, i128, i128, i128)) -> String {
    let doc = Outliers::with_thresholds(&[], t).encode();
    let lead = "{\"high_mild\":[],\"high_severe\":[],\"low_mild\":[],\"low_severe\":[],\
                \"normal\":[],\"thresholds\":[";
    let all = text(&doc);
    assert!(all.starts_with(lead) && all.ends_with("]}"));
    all[lead.len()..all.len() - 2].to_string()
}

fn normal_text(sample: &[i64]) -> String {
    let doc = Outliers::with_thresholds(sample, (i128::MIN, i128::MIN, i128::MAX, i128::MAX)).encode();
    let lead = "{\"high_mild\":[],\"high_severe\":[],\"low_mild\":[],\"low_severe\":[],\
                \"normal\":[";
    let all = text(&doc);
    let end = all.find("],\"thresholds\"").unwrap();
    assert!(all.starts_with(lead));
    all[lead.len()..end].to_string()
}

#[test]
fn document_of_the_single_outlier() {
    let o = Outliers::classify(&[1, 2, 3, 4, 5, 6, 7, 8, 9, 100]).unwrap();
    assert_eq!(
        text(&o.encode()),
        "{\"high_mild\":[],\"high_severe\":[100],\"low_mild\":[],\"low_severe\":[],\
         \"normal\":[1,2,3,4,5,6,7,8,9],\"thresholds\":[-10.25,-3.5,14.5,21.25]}"
    );
}

#[test]
fn document_of_an_empty_aggregate() {
    let o = Outliers::with_thresholds(&[], (0, 0, 0, 0));
    assert_eq!(
        text(&o.encode()),
        "{\"high_mild\":[],\"high_severe\":[],\"low_mild\":[],\"low_severe\":[],\
         \"normal\":[],\"thresholds\":[0,0,0,0]}"
    );
    assert_eq!(Outliers::decode(&o.encode()), Some(o));
}

#[test]
fn document_round_trips() {
    let samples: [&[i64]; 6] = [
        &[1, 2, 3, 4, 5, 6, 7, 8, 9, 100],
        &[1, 1, 1, 1],
        &[6, 11, 14, 11, 11, 11, 20, 11],
        &[9, 9, 9, 9, 12, 1, 9, 2],
        &[i64::MIN, i64::MAX, 0, -1, 1],
        &[10, 12, 11, 13, 12, 11, 30, 12, 10, -50, 11, 12, 13, 19, 12, 2, 11, 12],
    ];
    for sample in samples {
        let o = Outliers::classify(sample).unwrap();
        let bytes = o.encode();
        let back = Outliers::decode(&bytes).unwrap();
        assert_eq!(back.high_mild(), o.high_mild());
        assert_eq!(back.high_severe(), o.high_severe());
        assert_eq!(back.low_mild(), o.low_mild());
        assert_eq!(back.low_severe(), o.low_severe());
        assert_eq!(back.normal(), o.normal());
        assert_eq!(back.thresholds(), o.thresholds());
        assert_eq!(back, o);
        assert_eq!(back.encode(), bytes);
    }
}

#[test]
fn document_round_trips_with_every_fraction_and_extreme_fences() {
    let sample = [9, -9, 0, 5, -5, 9, 3, -3, -9, 5];
    for fences in [
        (1, 2, 3, 4),
        (5, 6, 7, 8),
        (-1, -2, -3, -4),
        (-5, -6, -7, -8),
        (i128::MIN, -1, 1, i128::MAX),
        (i128::MAX, i128::MIN, 9, -9),
    ] {
        let o = Outliers::with_thresholds(&sample, fences);
        let back = Outliers::decode(&o.encode()).unwrap();
        assert_eq!(back, o);
        assert_eq!(back.thresholds(), fences);
    }
}

#[test]
fn document_is_json_with_the_six_members() {
    let sample = [6, 11, 14, 11, 11, 11, 20, 11, i64::MAX, i64::MIN];
    let o = Outliers::with_thresholds(&sample, (70, 79, 103, 112));
    let value: serde_json::Value = serde_json::from_slice(&o.encode()).unwrap();
    let object = value.as_object().unwrap();
    let keys: Vec<&str> = object.keys().map(|k| k.as_str()).collect();
    assert_eq!(keys, ["high_mild", "high_severe", "low_mild", "low_severe", "normal", "thresholds"]);
    let bucket = |name: &str| -> Vec<i64> {
        value[name].as_array().unwrap().iter().map(|v| v.as_i64().unwrap()).collect()
    };
    assert_eq!(bucket("high_mild"), o.high_mild());
    assert_eq!(bucket("high_severe"), o.high_severe());
    assert_eq!(bucket("low_mild"), o.low_mild());
    assert_eq!(bucket("low_severe"), o.low_severe());
    assert_eq!(bucket("normal"), o.normal());
    assert_eq!(bucket("low_severe"), [6, i64::MIN]);
    assert_eq!(bucket("high_severe"), [20, i64::MAX]);
    let fences: Vec<f64> =
        value["thresholds"].as_array().unwrap().iter().map(|v| v.as_f64().unwrap()).collect();
    assert_eq!(fences, [8.75, 9.875, 12.875, 14.0]);
}

#[test]
fn decode_reads_a_document_written_by_hand() {
    let doc = b"{\"high_mild\":[7],\"high_severe\":[],\"low_mild\":[-3,-4],\"low_severe\":[],\
                \"normal\":[0,1,0],\"thresholds\":[-5.5,-2.125,6,9.875]}";
    let o = Outliers::decode(doc).unwrap();
    assert_eq!(o.high_mild(), [7]);
    assert_eq!(o.low_mild(), [-3, -4]);
    assert_eq!(o.normal(), [0, 1, 0]);
    assert_eq!(o.thresholds(), (-44, -17, 48, 79));
    assert_eq!(o.encode(), doc);
}

#[test]
fn decode_refuses_what_encode_never_writes() {
    let good = "{\"high_mild\":[],\"high_severe\":[100],\"low_mild\":[],\"low_severe\":[],\
                \"normal\":[1,2],\"thresholds\":[-10.25,-3.5,14.5,21.25]}";
    assert!(Outliers::decode(good.as_bytes()).is_some());
    let bad = [
        String::new(),
        "{}".to_string(),
        format!("{} ", good),
        format!(" {}", good),
        format!("{}}}", good),
        good[..good.len() - 1].to_string(),
        good.replace("[1,2]", "[1, 2]"),
        good.replace("[1,2]", "[1,2,]"),
        good.replace("[1,2]", "[,1,2]"),
        good.replace("[1,2]", "[1,,2]"),
        good.replace("[1,2]", "[01,2]"),
        good.replace("[1,2]", "[1,-0]"),
        good.replace("[1,2]", "[1,+2]"),
        good.replace("[1,2]", "[1,2.0]"),
        good.replace("[1,2]", "[1,-]"),
        good.replace("[1,2]", "[1,9223372036854775808]"),
        good.replace("[1,2]", "[1,-9223372036854775809]"),
        good.replace("[1,2]", "[1,2e0]"),
        good.replace("[100]", "[1OO]"),
        good.replace("\"normal\"", "\"Normal\""),
        good.replace("\"low_mild\":[],\"low_severe\":[]", "\"low_severe\":[],\"low_mild\":[]"),
        good.replace("14.5", "14.50"),
        good.replace("14.5", "14.4"),
        good.replace("14.5", "14."),
        good.replace("14.5", ".5"),
        good.replace("14.5", "14.5625"),
        good.replace("14.5", "014.5"),
        good.replace("14.5", "-0"),
        good.replace("14.5", "14,5"),
        good.replace("-3.5,", ""),
        good.replace("21.25]", "21.25,1]"),
        good.replace("21.25", "21267647932558653966460912964485513216"),
        good.replace("-10.25", "-21267647932558653966460912964485513216.125"),
    ];
    for doc in bad.iter() {
        assert_eq!(Outliers::decode(doc.as_bytes()), None, "{}", doc);
    }
    let edge = [
        good.replace("[1,2]", "[1,9223372036854775807]"),
        good.replace("[1,2]", "[1,-9223372036854775808]"),
        good.replace("14.5", "-0.5"),
        good.replace("21.25", "21267647932558653966460912964485513215.875"),
        good.replace("-10.25", "-21267647932558653966460912964485513216"),
    ];
    for doc in edge.iter() {
        let o = Outliers::decode(doc.as_bytes()).unwrap();
        assert_eq!(text(&o.encode()), doc);
    }
}

#[test]
fn fences_are_written_as_decimal_fractions() {
    assert_eq!(fences_text((0, 1, 2, 3)), "0,0.125,0.25,0.375");
    assert_eq!(fences_text((4, 5, 6, 7)), "0.5,0.625,0.75,0.875");
    assert_eq!(fences_text((8, 9, 80, 170)), "1,1.125,10,21.25");
    assert_eq!(fences_text((-82, -1, -8, -12)), "-10.25,-0.125,-1,-1.5");
    assert_eq!(
        fences_text((i128::MIN, i128::MAX, i128::MIN + 1, 1000000)),
        "-21267647932558653966460912964485513216,21267647932558653966460912964485513215.875,\
         -21267647932558653966460912964485513215.875,125000"
    );
}

#[test]
fn measurements_are_written_as_whole_numbers() {
    assert_eq!(normal_text(&[]), "");
    assert_eq!(normal_text(&[0]), "0");
    assert_eq!(normal_text(&[9, 10, -1, 1234567890]), "9,10,-1,1234567890");
    assert_eq!(
        normal_text(&[i64::MIN, i64::MAX, -10, 100]),
        "-9223372036854775808,9223372036854775807,-10,100"
    );
}
