use kyuko_bot::dates::Date;
use kyuko_bot::scraper::{
    parse_date, parse_date_str, parse_kamoku, parse_kyuko_parts, parse_periods, ParseError,
};
use kyuko_bot::Periods;

#[test]
fn parse_date_test() {
    assert_eq!(
        parse_date("2016年12月19日(月)　1講時").unwrap(),
        (Date::from_ymd(2016, 12, 19), Periods::from_vec(vec![1u8]))
    );
}

#[test]
fn parse_periods_test() {
    assert_eq!(*parse_periods("1講時").as_slice(), vec![1u8]);
    assert_eq!(*parse_periods("3.4講時").as_slice(), vec![3, 4]);
    assert_eq!(*parse_periods("5,6講時").as_slice(), vec![5, 6]);
    assert_eq!(*parse_periods("1-2講時").as_slice(), vec![1, 2]);
    assert_eq!(*parse_periods("3・4講時").as_slice(), vec![3, 4]);
    assert_eq!(*parse_periods("3-5講時").as_slice(), vec![3, 4, 5]);
    assert_eq!(*parse_periods("1-3,5講時").as_slice(), vec![1, 2, 3, 5]);
    assert_eq!(*parse_periods("1,3-5,6講時").as_slice(), vec![1, 3, 4, 5, 6]);
}

#[test]
fn parse_date_str_rejects_bad_dates() {
    assert!(parse_date_str("2016年12月19日").is_ok());
    assert_eq!(parse_date_str("2016年13月19日"), Err(ParseError::BadDate));
    assert_eq!(parse_date_str("2016年2月30日"), Err(ParseError::BadDate));
    assert_eq!(parse_date_str("年12月19日"), Err(ParseError::BadDate));
    assert_eq!(parse_date_str("2016年12月19日x"), Err(ParseError::BadDate));
    assert_eq!(parse_date_str("2016-12-19"), Err(ParseError::BadDate));
}

#[test]
fn parse_date_needs_second_word() {
    assert_eq!(
        parse_date("2016年12月19日(月)"),
        Err(ParseError::MissingPeriods)
    );
}

#[test]
fn parse_kamoku_test() {
    let (title, lecturer) = parse_kamoku("解析学I [山田]").unwrap();
    assert_eq!(&title, "解析学I");
    assert_eq!(&lecturer, "山田");
    assert_eq!(parse_kamoku("担当者なし"), Err(ParseError::MissingLecturer));
}

#[test]
fn parse_kyuko_parts_test() {
    let k = parse_kyuko_parts(
        "【休講】",
        "2016年04月06日(水)　1.2講時",
        "科目 [教員]",
        Some("備考".to_string()),
    )
    .unwrap();
    assert_eq!(&k.kind, "休講");
    assert_eq!(k.date, Date::from_ymd(2016, 4, 6));
    assert_eq!(*k.periods.as_slice(), vec![1, 2]);
    assert_eq!(&k.title, "科目");
    assert_eq!(&k.lecturer, "教員");
    assert_eq!(k.remarks, Some("備考".to_string()));
}
