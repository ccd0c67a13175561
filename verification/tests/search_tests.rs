use quant_desktop::datasource::fallback::{next_search_step, SearchStep};
use quant_desktop::datasource::search::{
    gbk_text, parse_sina_suggest, parse_sina_suggest_bytes, parse_tencent_smartbox, sina_suggest_url, tencent_suggest_url, unescape_unicode,
    urlencoding,
};

#[test]
fn test_urlencoding() {
    assert_eq!(urlencoding("600519"), "600519");
    assert_eq!(urlencoding("茅台"), "%E8%8C%85%E5%8F%B0");
}

#[test]
fn test_unescape_unicode() {
    assert_eq!(unescape_unicode("\\u8d35\\u5dde\\u8305\\u53f0"), "贵州茅台");
    assert_eq!(unescape_unicode("\\u5e73\\u5b89\\u94f6\\u884c"), "平安银行");
    assert_eq!(unescape_unicode("gzmt"), "gzmt");
    assert_eq!(unescape_unicode(""), "");
    // Invalid escape
    assert_eq!(unescape_unicode("\\u12"), "\\u12");
}

// ── Sina suggest tests ──

#[test]
fn test_parse_sina_exact_code() {
    let body = "var cn=\"sh600519,11,600519,sh600519,\u{8d35}\u{5dde}\u{8305}\u{53f0},,\u{8d35}\u{5dde}\u{8305}\u{53f0},99,1,ESG,,\"";
    let results = parse_sina_suggest(body, 20);
    assert_eq!(results.len(), 1);
    assert_eq!(results[0].code, "600519");
    assert_eq!(results[0].market, "CN");
}

#[test]
fn test_parse_sina_multiple() {
    let body = "var cn=\"sh600519,11,600519,sh600519,MT,,\u{8d35}\u{5dde}\u{8305}\u{53f0},99,1,ESG,,;sz000001,11,000001,sz000001,PB,,\u{5e73}\u{5b89}\u{94f6}\u{884c},99,1,ESG,,;00883,31,00883,00883,CM,,\u{4e2d}\u{56fd}\u{6d77}\u{6d0b}\u{77f3}\u{6cb9},99,1,ESG,,\"";
    let results = parse_sina_suggest(body, 20);
    assert_eq!(results.len(), 2);
    assert_eq!(results[0].code, "600519");
    assert_eq!(results[1].code, "000001");
}

#[test]
fn test_parse_sina_etf() {
    // Type 22 = ETF (off-exchange), Type 203 = ETF (on-exchange)
    let body = "var cn=\"sh510050,203,510050,sh510050,ETF_50,,\u{4e0a}\u{8bc1}50ETF,99,1,,,\"";
    let results = parse_sina_suggest(body, 20);
    assert_eq!(results.len(), 1);
    assert_eq!(results[0].code, "510050");
}

#[test]
fn test_parse_sina_name_search() {
    let body = "var cn=\"sh600030,11,600030,sh600030,ZX,,\u{4e2d}\u{4fe1}\u{8bc1}\u{5238},99,1,ESG,,;01114,31,01114,01114,HC,,\u{534e}\u{6668}\u{4e2d}\u{56fd},99,1,ESG,,\"";
    let results = parse_sina_suggest(body, 20);
    assert_eq!(results.len(), 1);
    assert_eq!(results[0].code, "600030");
}

// ── Tencent smartbox tests ──

#[test]
fn test_parse_tencent_exact_code() {
    let body = "v_hint=\"sh~600519~\\u8d35\\u5dde\\u8305\\u53f0~gzmt~GP-A\"";
    let results = parse_tencent_smartbox(body, 20);
    assert_eq!(results.len(), 1);
    assert_eq!(results[0].code, "600519");
    assert_eq!(results[0].name, "贵州茅台");
    assert_eq!(results[0].market, "CN");
}

#[test]
fn test_parse_tencent_partial_code() {
    let body = "v_hint=\"sh~600519~\\u8d35\\u5dde\\u8305\\u53f0~gzmt~GP-A^sz~000600~\\u5efa\\u6295\\u80fd\\u6e90~jtny~GP-A^hk~00600~\\u7231\\u82af\\u5143\\u667a~axyz~GP\"";
    let results = parse_tencent_smartbox(body, 20);
    // Only 2 A-shares, HK stock (GP) filtered out
    assert_eq!(results.len(), 2);
    assert_eq!(results[0].code, "600519");
    assert_eq!(results[1].code, "000600");
}

#[test]
fn test_parse_tencent_no_results() {
    let body = "v_hint=\"N\"";
    let results = parse_tencent_smartbox(body, 20);
    assert_eq!(results.len(), 0);
}

#[test]
fn test_parse_tencent_filters_non_a() {
    let body = "v_hint=\"jj~000600~\\u6c47\\u6dfb\\u5bcc\\u548c~htfh~KJ-HB^sh~600519~\\u8d35\\u5dde\\u8305\\u53f0~gzmt~GP-A\"";
    let results = parse_tencent_smartbox(body, 20);
    // Only GP-A, fund (KJ-HB) filtered out
    assert_eq!(results.len(), 1);
    assert_eq!(results[0].code, "600519");
}

#[test]
fn test_parse_tencent_etf() {
    let body = "v_hint=\"sh~510050~\\u4e0a\\u8bc150ETF\\u534e\\u590f~sz50etfhx~ETF^sz~159915~\\u521b\\u4e1a\\u677fETF\\u6613\\u65b9\\u8fbe~cybetfyfd~ETF^hk~02800~\\u76c8\\u5bcc\\u57fa\\u91d1~yfjj~ETF\"";
    let results = parse_tencent_smartbox(body, 20);
    // The HK ETF (type ETF but code not 6-digit) should be filtered out
    // Plus the ETF type now passes
    assert_eq!(results.len(), 2);
    assert_eq!(results[0].code, "510050");
    assert_eq!(results[1].code, "159915");
}

// ── requests and raw bytes ──

#[test]
fn suggest_urls_trim_and_encode_the_keyword() {
    assert_eq!(
        sina_suggest_url(" 茅台 "),
        Some("https://suggest3.sinajs.cn/suggest/name=cn&key=%E8%8C%85%E5%8F%B0".to_string())
    );
    assert_eq!(tencent_suggest_url("600519"), Some("http://smartbox.gtimg.cn/s3/?q=600519&t=all".to_string()));
    assert_eq!(tencent_suggest_url("a b"), Some("http://smartbox.gtimg.cn/s3/?q=a%20b&t=all".to_string()));
    assert_eq!(sina_suggest_url("  "), None);
    assert_eq!(tencent_suggest_url(""), None);
}

#[test]
fn sina_bytes_are_decoded_as_gbk() {
    let name: [u8; 8] = [0xb9, 0xf3, 0xd6, 0xdd, 0xc3, 0xa9, 0xcc, 0xa8];
    let mut bytes = b"var cn=\"sh600519,11,600519,sh600519,".to_vec();
    bytes.extend_from_slice(&name);
    bytes.extend_from_slice(b",,");
    bytes.extend_from_slice(&name);
    bytes.extend_from_slice(b",99,1,ESG,,\"");
    let results = parse_sina_suggest_bytes(&bytes, 20);
    assert_eq!(results.len(), 1);
    assert_eq!(results[0].code, "600519");
    assert_eq!(results[0].name, "贵州茅台");
}

#[test]
fn search_falls_back_source_by_source() {
    // Two sources, the first active.
    assert_eq!(next_search_step(SearchStep::SinaSuggest, false, 0, 2), SearchStep::TencentSmartbox);
    assert_eq!(next_search_step(SearchStep::TencentSmartbox, false, 0, 2), SearchStep::ActiveSource);
    assert_eq!(next_search_step(SearchStep::ActiveSource, false, 0, 2), SearchStep::OtherSource(1));
    assert_eq!(next_search_step(SearchStep::OtherSource(1), false, 0, 2), SearchStep::Done);
    // Three sources, the middle one active: it is skipped among the others.
    assert_eq!(next_search_step(SearchStep::ActiveSource, false, 1, 3), SearchStep::OtherSource(0));
    assert_eq!(next_search_step(SearchStep::OtherSource(0), false, 1, 3), SearchStep::OtherSource(2));
    // No active source: every source in order.
    assert_eq!(next_search_step(SearchStep::TencentSmartbox, false, 2, 2), SearchStep::OtherSource(0));
    assert_eq!(next_search_step(SearchStep::TencentSmartbox, false, 0, 0), SearchStep::Done);
    // A step that found something ends the search.
    assert_eq!(next_search_step(SearchStep::SinaSuggest, true, 0, 2), SearchStep::Done);
    assert_eq!(next_search_step(SearchStep::Done, false, 0, 2), SearchStep::Done);
}

#[test]
fn escaping_every_character_round_trips() {
    let text = "贵州茅台 ETF-A";
    let lower: String = text.chars().map(|c| format!("\\u{:04x}", c as u32)).collect();
    let upper: String = text.chars().map(|c| format!("\\u{:04X}", c as u32)).collect();
    assert_eq!(unescape_unicode(&lower), text);
    assert_eq!(unescape_unicode(&upper), text);
}

#[test]
fn quote_bodies_are_decoded_as_gbk() {
    let mut bytes = b"v_sh600519=\"1~".to_vec();
    bytes.extend_from_slice(&[0xb9, 0xf3, 0xd6, 0xdd, 0xc3, 0xa9, 0xcc, 0xa8]);
    bytes.extend_from_slice(b"~600519\";");
    assert_eq!(gbk_text(&bytes), "v_sh600519=\"1~贵州茅台~600519\";");
}
