use ink_core::shunn::{
    header_keyword, pdf_title, round_wordcount, running_header, shunn_layout, surname, PdfItem,
    ShunnBlock, ShunnManuscript,
};

#[test]
fn wordcount_rounds_per_shunn() {
    assert_eq!(round_wordcount(0), 0);
    assert_eq!(round_wordcount(49), 0); // nearest 100, rounds down
    assert_eq!(round_wordcount(50), 100); // .5 rounds up
    assert_eq!(round_wordcount(7_649), 7_600);
    assert_eq!(round_wordcount(7_650), 7_700);
    assert_eq!(round_wordcount(9_950), 10_000); // crosses into the 1000-step band
    // At/above 10k: nearest 1000.
    assert_eq!(round_wordcount(80_400), 80_000);
    assert_eq!(round_wordcount(80_500), 81_000);
}

#[test]
fn surname_and_keyword() {
    assert_eq!(surname("Thom Bruce"), "Bruce");
    assert_eq!(surname("Ursula K. Le Guin"), "Guin");
    assert_eq!(surname(""), "");
    assert_eq!(header_keyword("The Example Novel"), "EXAMPLE"); // article skipped
    assert_eq!(header_keyword("An Ode"), "ODE");
    assert_eq!(header_keyword("The"), "THE"); // article-only title keeps it
    assert_eq!(header_keyword("Dune"), "DUNE");
    assert_eq!(header_keyword(""), "");
}

#[test]
fn wordcount_rounding_stays_within_half_a_step() {
    for n in [0usize, 1, 99, 150, 9_999, 10_000, 10_499, 10_500, 123_456] {
        let r = round_wordcount(n);
        let step = if n < 10_000 { 100 } else { 1_000 };
        assert_eq!(r % step, 0);
        assert!(r + step / 2 >= n && r <= n + step / 2);
    }
}

#[test]
fn surname_ignores_surrounding_whitespace() {
    assert_eq!(surname("  Mary   Shelley \n"), "Shelley");
    assert_eq!(header_keyword("  a  tale of two cities"), "TALE");
    assert_eq!(header_keyword("THE End"), "END");
    assert_eq!(header_keyword("straße"), "STRASSE");
}

#[test]
fn layout_puts_title_page_then_blocks_then_the_end() {
    let m = ShunnManuscript {
        title: "The Work".to_string(),
        contact: vec!["Jane Roe".to_string(), "jane@example.com".to_string()],
        byline: "J. Roe".to_string(),
        surname: "Roe".to_string(),
        keyword: "WORK".to_string(),
        words: 2000,
        blocks: vec![
            ShunnBlock::Chapter("One".to_string()),
            ShunnBlock::Para("Alpha beta.".to_string()),
            ShunnBlock::SceneBreak,
            ShunnBlock::Subhead("Aside".to_string()),
        ],
    };
    let items = shunn_layout(&m);
    let expected = vec![
        PdfItem::Line("Jane Roe".to_string()),
        PdfItem::Line("jane@example.com".to_string()),
        PdfItem::Right("about 2000 words".to_string()),
        PdfItem::Space(8),
        PdfItem::Centered("THE WORK".to_string()),
        PdfItem::Centered("by J. Roe".to_string()),
        PdfItem::PageBreak,
        PdfItem::Space(6),
        PdfItem::Centered("One".to_string()),
        PdfItem::Space(2),
        PdfItem::Line("     Alpha beta.".to_string()),
        PdfItem::Space(1),
        PdfItem::Centered("#".to_string()),
        PdfItem::Space(1),
        PdfItem::Space(1),
        PdfItem::Centered("Aside".to_string()),
        PdfItem::Space(1),
        PdfItem::Space(1),
        PdfItem::Centered("THE END".to_string()),
    ];
    assert_eq!(items, expected);
}

#[test]
fn layout_omits_empty_title_page_fields() {
    let m = ShunnManuscript {
        title: String::new(),
        contact: vec![],
        byline: String::new(),
        surname: String::new(),
        keyword: String::new(),
        words: 0,
        blocks: vec![],
    };
    assert_eq!(
        shunn_layout(&m),
        vec![PdfItem::Space(8), PdfItem::Space(1), PdfItem::Centered("THE END".to_string())]
    );
    assert_eq!(pdf_title(&m), None);
    let t = ShunnManuscript { title: "Dune".to_string(), ..m };
    assert_eq!(pdf_title(&t), Some("Dune".to_string()));
}

#[test]
fn running_header_from_page_two() {
    assert_eq!(running_header("Bruce", "EXAMPLE", 1), None);
    assert_eq!(running_header("Bruce", "EXAMPLE", 2), Some("Bruce / EXAMPLE / 2".to_string()));
    assert_eq!(running_header("Bruce", "EXAMPLE", 117), Some("Bruce / EXAMPLE / 117".to_string()));
}

#[test]
fn blank_title_gives_an_empty_keyword() {
    assert_eq!(header_keyword("   "), "");
    assert_eq!(header_keyword(""), "");
}
