use ava::report::{leveled, tokens_until};
use ava::report::{
    base64, data_uri, document, file_name, harness_hue, masthead, page_rules, pointed_inside, tabs,
    titled, tokens_label, Asset, Assets, Column, Part, Report, TabStyle,
};

fn piece(label: &str, names: &[&str]) -> Part {
    Part {
        label: label.to_string(),
        names: names.iter().map(|name| name.to_string()).collect(),
    }
}

#[test]
fn the_labels_read_as_the_columns_say() {
    assert_eq!(tokens_label(999), "999");
    assert!(tokens_label(262_798).contains(">263k<"));
    assert!(tokens_label(27_449_604).contains(">27.4M<"));
    assert_eq!(file_name(&[piece("", &["a", "b"])]), "report-a-b.html");
    assert_eq!(
        file_name(&[piece("max", &["a"]), piece("high", &["b"])]),
        "report-max-high.html"
    );
    assert_eq!(file_name(&[]), "report.html");
}

#[test]
fn base64_pads_the_last_block() {
    assert_eq!(base64(b""), "");
    assert_eq!(base64(b"f"), "Zg==");
    assert_eq!(base64(b"fo"), "Zm8=");
    assert_eq!(base64(b"foo"), "Zm9v");
    assert_eq!(base64(b"foobar"), "Zm9vYmFy");
}

#[test]
fn base64_covers_the_whole_alphabet() {
    let bytes: Vec<u8> = (0..=255).collect();
    let encoded = base64(&bytes);
    assert_eq!(encoded.len(), 4 * 86);
    assert!(encoded.starts_with("AAECAwQFBgcICQoLDA0ODxAREhMUFRYXGBkaGxwdHh8gISIjJCUmJygpKissLS4v"));
    assert!(encoded.ends_with("+/w=="));
}

#[test]
fn links_point_inside_the_file() {
    let body = "<a href=\"/run/x\">x</a><a href=\"/run/x/run.json\">run.json</a><a href=\"/run/xy\">xy</a>";

    assert_eq!(
        pointed_inside(body, "/run/x", "run-x"),
        "<a href=\"#run-x\">x</a><a href=\"/run/x/run.json\">run.json</a><a href=\"/run/xy\">xy</a>"
    );
}

fn assets() -> Assets {
    Assets {
        layout: "<!doctype html><html lang=\"en\"><head><meta charset=\"utf-8\"><title>{title} · ava</title>\
                 <style>@font-face{font-family:Inter;src:url('/assets/fonts/inter.woff2') format('woff2')}</style>\
                 <script src=\"/assets/tailwind.js\"></script></head><body>{content}</body></html>"
            .to_string(),
        title_placeholder: "{title}".to_string(),
        fonts: vec![Asset {
            name: "inter.woff2".to_string(),
            bytes: b"wOF2 font".to_vec(),
        }],
        font_content_type: "font/woff2".to_string(),
        tailwind: "tailwind.config = {}".to_string(),
        sprite_path: "/assets/sprites/".to_string(),
        sprites: vec![Asset {
            name: "walk.png".to_string(),
            bytes: b"\x89PNG sheet".to_vec(),
        }],
        sprite_content_type: "image/png".to_string(),
        table_sort: "document.querySelectorAll('table[data-sortable]').forEach(sortable);".to_string(),
    }
}

#[test]
fn the_document_fetches_nothing_from_the_server() {
    let assets = assets();
    let sheet = &assets.sprites[0].name;
    let body = format!(
        "<p>body</p><span style=\"background-image:url('{}{sheet}')\"></span>",
        assets.sprite_path
    );
    let document = document(&body, &assets, &[]);

    assert!(document.starts_with("<!doctype html>"));
    assert!(document.contains("data:font/woff2;base64,"));
    assert!(document.contains("url('data:image/png;base64,"));
    assert!(!document.contains("/assets/"));
    assert!(document.contains("<title>Agent vs Agent"));
    assert!(document.contains("table[data-sortable]"));
    assert!(document.ends_with("</html>"));
}

#[test]
fn logos_go_inside_the_document() {
    let logo = ava::report::Logo {
        address: "/logo/chess.svg".to_string(),
        kind: "image/svg+xml".to_string(),
        bytes: b"<svg/>".to_vec(),
    };
    let document = document("<img src=\"/logo/chess.svg\">", &assets(), &[logo]);
    assert!(document.contains("<img src=\"data:image/svg+xml;base64,PHN2Zy8+\">"));
}

#[test]
fn data_uris_carry_their_kind() {
    assert_eq!(data_uri("text/plain", b"hi"), "data:text/plain;base64,aGk=");
}

#[test]
fn titles_are_escaped_and_labels_kept() {
    assert_eq!(titled("<b>x</b>", "a \"b\""), "<span title=\"a &quot;b&quot;\"><b>x</b></span>");
}

fn float_label(count: u64) -> String {
    let tokens = count as f64;
    let compact = if tokens >= 1e6 {
        format!("{:.1}M", tokens / 1e6)
    } else if tokens >= 1e3 {
        format!("{:.0}k", tokens / 1e3)
    } else {
        return count.to_string();
    };
    format!("<span title=\"{count}\">{compact}</span>")
}

#[test]
fn token_counts_print_as_their_double_quotient() {
    assert_eq!(tokens_label(1_000), "<span title=\"1000\">1k</span>");
    assert_eq!(tokens_label(1_500), "<span title=\"1500\">2k</span>");
    assert_eq!(tokens_label(2_500), "<span title=\"2500\">2k</span>");
    assert_eq!(tokens_label(999_999), "<span title=\"999999\">1000k</span>");
    assert_eq!(tokens_label(1_000_000), "<span title=\"1000000\">1.0M</span>");
    assert_eq!(tokens_label(1_050_000), "<span title=\"1050000\">1.1M</span>");
    assert_eq!(tokens_label(1_150_000), "<span title=\"1150000\">1.1M</span>");
    assert_eq!(tokens_label(0), "0");
}

#[test]
fn token_labels_agree_with_float_formatting() {
    let mut counts: Vec<u64> = vec![
        0,
        1,
        999,
        1_000,
        1_499,
        1_500,
        2_500,
        3_500,
        999_499,
        999_500,
        999_999,
        1_000_000,
        1_050_000,
        1_150_000,
        1_250_000,
        1_350_000,
        2_450_000,
        9_999_950_000,
        123_456_789_012,
        (1u64 << 53) - 1,
        1u64 << 53,
        (1u64 << 53) + 1,
        (1u64 << 60) + 12_345,
        u64::MAX - 1,
        u64::MAX,
    ];
    for i in 0..20_000u64 {
        counts.push(1_000_000 + i * 50_000);
        counts.push(i * 50);
        counts.push(i.wrapping_mul(0x9E37_79B9_7F4A_7C15));
        counts.push((i.wrapping_mul(0x2545_F491_4F6C_DD1D) >> (i % 64)) | 1);
    }
    for count in counts {
        assert_eq!(tokens_label(count), float_label(count), "count {count}");
    }
}

#[test]
fn tabs_switch_on_radio_buttons() {
    let style = TabStyle {
        row: "row",
        tab: "tab",
    };
    let panes = vec![
        ("one".to_string(), "<p>1</p>".to_string()),
        ("two".to_string(), "<p>2</p>".to_string()),
    ];
    assert_eq!(
        tabs("tab", &style, &panes),
        "<div class=\"tabs\"><style>\
         .tabs:not(:has(#tab-0:checked)) .tab-pane-0{display:none}\
         .tabs:not(:has(#tab-1:checked)) .tab-pane-1{display:none}</style>\
         <div class=\"row\">\
         <span><input type=\"radio\" name=\"tab\" id=\"tab-0\" class=\"peer sr-only\" checked><label for=\"tab-0\" class=\"tab\">one</label></span>\
         <span><input type=\"radio\" name=\"tab\" id=\"tab-1\" class=\"peer sr-only\"><label for=\"tab-1\" class=\"tab\">two</label></span>\
         </div><div class=\"tab-pane-0\"><p>1</p></div><div class=\"tab-pane-1\"><p>2</p></div></div>"
    );
    assert_eq!(tabs("part", &style, &[]), "<div class=\"parts\"><style></style><div class=\"row\"></div></div>");
}

#[test]
fn the_report_has_its_title_and_rules() {
    assert_eq!(
        masthead(),
        "<h1 class=\"text-4xl font-semibold tracking-tight text-neutral-100\">Agent vs Agent</h1>"
    );
    assert_eq!(
        page_rules(),
        ".report-page{display:none}.report-page:target{display:block}.report-pages:has(.report-page:target)>.report-front{display:none}"
    );
}

#[test]
fn harness_hues_spread_over_the_wheel() {
    let harnesses: Vec<String> = ["code", "codex", "pi"].iter().map(|h| h.to_string()).collect();
    assert_eq!(harness_hue(&harnesses, "code"), 0);
    assert_eq!(harness_hue(&harnesses, "codex"), 120);
    assert_eq!(harness_hue(&harnesses, "pi"), 240);
    assert_eq!(harness_hue(&harnesses, "other"), 0);
    assert_eq!(harness_hue(&[], "pi"), 0);
}

#[test]
fn columns_explain_themselves() {
    assert!(Column::Score.header().starts_with("#score|"));
    assert!(Column::FirstPass.header().starts_with("#mean time to first pass|"));
}

#[test]
fn reports_go_into_their_directory_by_default() {
    let report = Report::default();
    assert!(report.parts.is_empty());
    assert_eq!(report.directory, "reports");
}

fn request(seconds: u64, tokens: u64, push: bool) -> ava::report::Request {
    ava::report::Request {
        seconds,
        tokens,
        push,
    }
}

#[test]
fn tokens_count_up_to_the_push_of_the_attempt() {
    let requests = [
        request(10, 0, true),
        request(5, 100, false),
        request(12, 50, false),
        request(20, 0, true),
        request(25, 7, false),
    ];
    assert_eq!(tokens_until(&requests, 0, 2, 0, 999), Some(100));
    assert_eq!(tokens_until(&requests, 0, 2, 1, 999), Some(150));
}

#[test]
fn tokens_count_up_to_the_scoring_clock_without_every_push() {
    let requests = [request(10, 0, true), request(5, 100, false), request(12, 50, false)];
    assert_eq!(tokens_until(&requests, 4, 2, 1, 8), Some(150));
    assert_eq!(tokens_until(&requests, 4, 2, 1, 1), Some(100));
    assert_eq!(tokens_until(&requests, 4, 2, 1, 0), Some(0));
    assert_eq!(tokens_until(&[], 4, 2, 1, 0), None);
}

#[test]
fn names_carry_their_thinking_level() {
    assert_eq!(leveled("gpt", Some("high")), "gpt high");
    assert_eq!(leveled("gpt", Some("")), "gpt");
    assert_eq!(leveled("gpt", None), "gpt");
}
