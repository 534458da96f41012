use cctag::filelog::{boost_exponent, write_filelog, LoggedFrame, LoggedMarker};

#[test]
fn boost_exponent_pads_and_signs() {
    assert_eq!(boost_exponent("9.999999776e-3"), "9.999999776e-03");
    assert_eq!(boost_exponent("1.500000000e2"), "1.500000000e+02");
    assert_eq!(boost_exponent("1.0e-123"), "1.0e-123");
    assert_eq!(boost_exponent("0.000000000e0"), "0.000000000e+00");
    assert_eq!(boost_exponent("2e"), "2e+00");
}

fn marker(id: i32, status: i32) -> LoggedMarker {
    LoggedMarker { id, status, fields: vec![("x".to_string(), "1".to_string())] }
}

#[test]
fn filelog_layout_with_class_headers_on_first_items() {
    let frames = vec![
        LoggedFrame { frame: 0, elapsed: "E0".to_string(), markers: vec![marker(3, 1), marker(-1, -4)] },
        LoggedFrame { frame: 12, elapsed: "E1".to_string(), markers: vec![marker(0, 0)] },
    ];
    let params = vec![("_a".to_string(), "5".to_string())];
    let out = write_filelog("img.png", &params, &frames);
    let expected: String = [
        "<?xml version=\"1.0\" encoding=\"UTF-8\" standalone=\"yes\" ?>\n<!DOCTYPE boost_serialization>\n",
        "<boost_serialization signature=\"serialization::archive\" version=\"20\">\n",
        "<FileLog class_id=\"0\" tracking_level=\"0\" version=\"0\">\n",
        "\t<filename>img.png</filename>\n",
        "\t<parameters class_id=\"1\" tracking_level=\"0\" version=\"0\">\n",
        "\t\t<_a>5</_a>\n",
        "\t</parameters>\n",
        "\t<frameLogs class_id=\"2\" tracking_level=\"0\" version=\"0\">\n",
        "\t\t<count>2</count>\n",
        "\t\t<item_version>0</item_version>\n",
        "\t\t<item class_id=\"3\" tracking_level=\"0\" version=\"0\">\n",
        "\t\t\t<frame>0</frame>\n",
        "\t\t\t<elapsedTime>E0</elapsedTime>\n",
        "\t\t\t<tags class_id=\"4\" tracking_level=\"0\" version=\"0\">\n",
        "\t\t\t\t<count>2</count>\n",
        "\t\t\t\t<item_version>0</item_version>\n",
        "\t\t\t\t<item class_id=\"5\" tracking_level=\"0\" version=\"0\">\n",
        "\t\t\t\t\t<id>3</id>\n",
        "\t\t\t\t\t<status>1</status>\n",
        "\t\t\t\t\t<x>1</x>\n",
        "\t\t\t\t</item>\n",
        "\t\t\t\t<item>\n",
        "\t\t\t\t\t<id>-1</id>\n",
        "\t\t\t\t\t<status>-4</status>\n",
        "\t\t\t\t\t<x>1</x>\n",
        "\t\t\t\t</item>\n",
        "\t\t\t</tags>\n\t\t</item>\n",
        "\t\t<item>\n",
        "\t\t\t<frame>12</frame>\n",
        "\t\t\t<elapsedTime>E1</elapsedTime>\n",
        "\t\t\t<tags>\n",
        "\t\t\t\t<count>1</count>\n",
        "\t\t\t\t<item_version>0</item_version>\n",
        "\t\t\t\t<item>\n",
        "\t\t\t\t\t<id>0</id>\n",
        "\t\t\t\t\t<status>0</status>\n",
        "\t\t\t\t\t<x>1</x>\n",
        "\t\t\t\t</item>\n",
        "\t\t\t</tags>\n\t\t</item>\n",
        "\t</frameLogs>\n</FileLog>\n</boost_serialization>\n",
    ]
    .concat();
    assert_eq!(out, expected);
}

#[test]
fn filelog_decimal_extremes() {
    let frames = vec![LoggedFrame {
        frame: usize::MAX,
        elapsed: String::new(),
        markers: vec![LoggedMarker { id: i32::MIN, status: i32::MAX, fields: vec![] }],
    }];
    let out = write_filelog("", &[], &frames);
    assert!(out.contains(&format!("<frame>{}</frame>", usize::MAX)));
    assert!(out.contains("<id>-2147483648</id>"));
    assert!(out.contains("<status>2147483647</status>"));
}

#[test]
fn filelog_marker_class_header_goes_to_first_marker_written() {
    let frames = vec![
        LoggedFrame { frame: 0, elapsed: "E0".to_string(), markers: vec![] },
        LoggedFrame { frame: 1, elapsed: "E1".to_string(), markers: vec![marker(4, 1), marker(5, 1)] },
        LoggedFrame { frame: 2, elapsed: "E2".to_string(), markers: vec![marker(6, 1)] },
    ];
    let out = write_filelog("f", &[], &frames);
    let lines: Vec<&str> = out.lines().collect();
    let with5: Vec<usize> = (0..lines.len())
        .filter(|&i| lines[i] == "\t\t\t\t<item class_id=\"5\" tracking_level=\"0\" version=\"0\">")
        .collect();
    assert_eq!(with5.len(), 1);
    assert_eq!(lines[with5[0] + 1], "\t\t\t\t\t<id>4</id>");
    assert_eq!(lines.iter().filter(|l| **l == "\t\t\t\t<item>").count(), 2);
    assert_eq!(lines.iter().filter(|l| **l == "\t\t<item class_id=\"3\" tracking_level=\"0\" version=\"0\">").count(), 1);
    assert_eq!(lines.iter().filter(|l| **l == "\t\t<item>").count(), 2);
}
