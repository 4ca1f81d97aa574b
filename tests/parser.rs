use sheet_engine::parser::{
    parse, ret_values, valid_cell, valid_cell3, valid_column, valid_column2, valid_comp,
    valid_function, valid_integer, valid_row, valid_row2, Response,
};

#[test]
fn test_1() {
    let str = "A1=MAX(B1:X1)";
    let ret = parse(str);
    assert!(
        ret == Response {
            status: 0,
            func: 8,
            target: 1001,
            arg1: 2001,
            arg2: 24001,
            arg_type: 3
        },
        "r = {:?}",
        ret
    );
    println!("{ret:?}");

    let str2 = "A1=B1";
    let ret = parse(str2);
    assert!(
        ret == Response {
            status: 0,
            func: 2,
            target: 1001,
            arg1: 2001,
            arg2: 0,
            arg_type: 2
        },
        "r = {:?}",
        ret
    );
    let _str2 = "A1=MAX(Z1:X1)";
}

#[test]
fn test_2() {
    let k1 = valid_row("abcd");
    let k2 = valid_row("01");
    let k3 = valid_row("1a");
    assert!(k1 == false);
    assert!(k2 == false);
    assert!(k3 == false);

    let k1 = valid_row2("abcd");
    let k2 = valid_row2("01");
    let k3 = valid_row2("1a");
    assert!(k1 == 0);
    assert!(k2 == 0);
    assert!(k3 == 0);

    let k1 = valid_column("abcd");
    let k2 = valid_column("01");
    assert!(k1 == false);
    assert!(k2 == false);

    let k1 = valid_column2("abcd");
    let k2 = valid_column2("01");
    assert!(k1 == 0);
    assert!(k2 == 0);

    let k1 = valid_integer("");
    let k2 = valid_integer("-");
    let k3 = valid_integer("-0");
    let _k6 = valid_integer("0");
    let k4 = valid_integer("-01");
    let _k7 = valid_integer("01");
    let k5 = valid_integer("-1");

    assert!(k1 == false);
    assert!(k2 == false);
    assert!(k3 == true);
    assert!(k4 == false);
    assert!(k5 == true);

    let k1 = valid_function("MIN");
    let k2 = valid_function("MAX");
    let k3 = valid_function("AVG");
    let k4 = valid_function("SUM");
    let k5 = valid_function("STDEV");
    let k6 = valid_function("SLEEP");
    let k7 = valid_function("VAR");

    assert!(k1 == 1);
    assert!(k2 == 2);
    assert!(k3 == 3);
    assert!(k4 == 4);
    assert!(k5 == 5);
    assert!(k6 == 6);
    assert!(k7 == 0);

    let _add = valid_cell("we");
    let _add = valid_cell("00");
    let _add = valid_cell3("A11111");
    let _add = valid_cell3("AAAA11");
    let _add = valid_comp("aa", "a", "a", "a");
    let _add = valid_comp("AA", "1", "AA", "1");
    let _add = valid_comp("AA", "1", "AA", "2");
    let _add = valid_comp("A", "1", "AA", "3");
}

fn resp(status: i32, func: i32, target: i32, arg1: i32, arg2: i32, arg_type: i32) -> Response {
    Response { status, func, target, arg1, arg2, arg_type }
}

#[test]
fn parse_view_commands() {
    assert_eq!(parse(""), resp(2, 0, 0, 0, 0, 0));
    assert_eq!(parse("w"), resp(0, 13, 0, 0, 0, 0));
    assert_eq!(parse("d"), resp(0, 14, 0, 0, 0, 0));
    assert_eq!(parse("a"), resp(0, 15, 0, 0, 0, 0));
    assert_eq!(parse("s"), resp(0, 16, 0, 0, 0, 0));
    assert_eq!(parse("q"), resp(0, 17, 0, 0, 0, 0));
    assert_eq!(parse("x"), resp(1, 0, 0, 0, 0, 0));
    assert_eq!(parse("disable_output"), resp(0, 18, 0, 0, 0, 0));
    assert_eq!(parse("enable_output"), resp(0, 19, 0, 0, 0, 0));
    assert_eq!(parse("scroll_to D10"), resp(0, 20, 4010, 0, 0, 0));
    assert_eq!(parse("scroll_to 10"), resp(1, 0, 0, 0, 0, 0));
}

#[test]
fn parse_assignments() {
    assert_eq!(parse("A1=100"), resp(0, 1, 1001, 100, 0, 0));
    assert_eq!(parse("A1=-7"), resp(0, 1, 1001, -7, 0, 0));
    assert_eq!(parse("A1=50+50"), resp(0, 3, 1001, 50, 50, 0));
    assert_eq!(parse("A1=B1+100"), resp(0, 3, 1001, 2001, 100, 2));
    assert_eq!(parse("C1=A1/B1"), resp(0, 6, 3001, 1001, 2001, 3));
    assert_eq!(parse("B2=A2*10"), resp(0, 5, 2002, 1002, 10, 2));
    assert_eq!(parse("C2=B2-A1"), resp(0, 4, 3002, 2002, 1001, 3));
    assert_eq!(parse("A2=-3-B1"), resp(0, 4, 1002, -3, 2001, 1));
    assert_eq!(parse("A3=MAX(A2:C2)"), resp(0, 8, 1003, 1002, 3002, 3));
    assert_eq!(parse("B3=MIN(A2:C2)"), resp(0, 7, 2003, 1002, 3002, 3));
    assert_eq!(parse("D3=AVG(A2:C2)"), resp(0, 9, 4003, 1002, 3002, 3));
    assert_eq!(parse("C3=SUM(A2:C2)"), resp(0, 10, 3003, 1002, 3002, 3));
    assert_eq!(parse("E3=STDEV(A2:C2)"), resp(0, 11, 5003, 1002, 3002, 3));
    assert_eq!(parse("F3=SLEEP(1)"), resp(0, 12, 6003, 1, 0, 0));
    assert_eq!(parse("G3=SLEEP(F3)"), resp(0, 12, 7003, 6003, 0, 2));
    assert_eq!(parse("A1=MAX(Z1:X1)"), resp(2, 0, 1001, 0, 0, 0));
    assert_eq!(parse("A1=VAR(B1:C1)"), resp(1, 0, 1001, 0, 0, 0));
    assert_eq!(parse("A1=B1+"), resp(1, 0, 1001, 0, 0, 0));
    assert_eq!(parse("1A=3"), resp(1, 0, 0, 0, 0, 0));
    assert_eq!(parse("ABCDEFG1=3"), resp(1, 0, 0, 0, 0, 0));
    assert_eq!(parse("A1=99999999999"), resp(0, 1, 1001, 0, 0, 0));
}

#[test]
fn labels_and_codes() {
    assert_eq!(valid_cell3("A1"), 1001);
    assert_eq!(valid_cell3("AC12"), 29012);
    assert_eq!(valid_cell3("ZZZ999"), 18278999);
    assert_eq!(valid_cell3("A0"), 0);
    assert_eq!(valid_column2("A"), 1);
    assert_eq!(valid_column2("AC"), 29);
    assert_eq!(valid_column2("ZZZ"), 18278);
    assert_eq!(valid_row2("891"), 891);
    assert!(valid_row("0"));
    assert!(!valid_row("5735"));
    assert!(valid_integer("+1263"));
    assert!(!valid_integer("+00236"));
    assert_eq!(ret_values('+'), 3);
    assert_eq!(ret_values('-'), 4);
    assert_eq!(ret_values('*'), 5);
    assert_eq!(ret_values('/'), 6);
    assert_eq!(ret_values('x'), 0);
    let (ok, parts) = valid_cell("AB12");
    assert!(ok);
    let (c, r) = parts.unwrap();
    assert_eq!(c, "AB");
    assert_eq!(r, "12");
    assert!(!valid_cell("12").0);
    assert!(valid_comp("A", "1", "B", "2"));
    assert!(!valid_comp("B", "1", "A", "2"));
    assert!(!valid_comp("A", "3", "B", "2"));
    assert!(valid_comp("Z", "1", "AA", "1"));
}
