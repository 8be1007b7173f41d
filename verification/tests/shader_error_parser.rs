use lib::code_generation::{ErrId, LineNumbersByKey};
use lib::shader_error_parser::{shader_error_parser, shader_errors_by_source};

#[test]
fn shader_error_parser_shader_error_parser_test() {
        let linux1 = r#"0(270) : error C0000: syntax error, unexpected '}' at token "}"
0(286) : error C1503: undefined variable "a"
0(286) : error C1503: undefined variable "n"
0(287) : error C1503: undefined variable "b"
0(287) : error C1503: undefined variable "n"
0(288) : error C0000: syntax error, unexpected reserved word "return" at token "return"
0(327) : error C1503: undefined variable "two_lines_nearest_points"
0(327) : error C1503: undefined variable "l"
0(327) : error C1503: undefined variable "r"
0(329) : error C1503: undefined variable "l"
0(329) : error C1503: undefined variable "l"
0(330) : error C1503: undefined variable "r"
0(330) : error C1503: undefined variable "r"
0(332) : error C1059: non constant expression in initialization
0(334) : error C0000: syntax error, unexpected reserved word "if" at token "if"
0(347) : error C1503: undefined variable "u"
0(348) : error C1503: undefined variable "u"
0(349) : error C1503: undefined variable "u"
0(350) : error C0000: syntax error, unexpected reserved word "return" at token "return"
0(359) : error C1503: undefined variable "u"
0(359) : error C1038: declaration of "b" conflicts with previous declaration at 0(347)
0(360) : error C1503: undefined variable "u"
0(360) : error C1038: declaration of "c" conflicts with previous declaration at 0(348)
0(361) : error C1503: undefined variable "u"
0(361) : error C1038: declaration of "d" conflicts with previous declaration at 0(349)
0(362) : error C0000: syntax error, unexpected reserved word "return" at token "return"
0(373) : error C0000: syntax error, unexpected '}' at token "}"
0(375) : error C0000: syntax error, unexpected '(', expecting "::" at token "("
0(378) : error C1503: undefined variable "mobius_step"
0(378) : error C1503: undefined variable "r"
0(379) : error C0000: syntax error, unexpected reserved word "for" at token "for"
0(433) : error C1503: undefined variable "op"
0(433) : error C1503: undefined variable "r"
0(433) : error C1038: declaration of "b" conflicts with previous declaration at 0(347)
0(434) : error C1503: undefined variable "op"
0(434) : error C1503: undefined variable "op"
0(435) : error C0000: syntax error, unexpected reserved word "return" at token "return"
0(550) : error C1503: undefined variable "is_inside_triangle"
0(555) : error C1503: undefined variable "is_inside_triangle"
0(631) : error C1503: undefined variable "process_plane_intersection"
0(635) : error C1503: undefined variable "process_plane_intersection"
0(639) : error C1503: undefined variable "process_plane_intersection"
0(643) : error C1503: undefined variable "process_plane_intersection"
0(647) : error C1503: undefined variable "process_plane_intersection"
0(651) : error C1503: undefined variable "process_plane_intersection"
0(655) : error C1503: undefined variable "process_plane_intersection"
0(659) : error C1503: undefined variable "process_plane_intersection"
0(664) : error C1503: undefined variable "process_portal_intersection"
0(668) : error C1503: undefined variable "process_portal_intersection"
0(673) : error C1503: undefined variable "process_portal_intersection"
0(677) : error C1503: undefined variable "process_portal_intersection"
0(680) : error C1503: undefined variable "a2_mat"
0(682) : error C1503: undefined variable "process_portal_intersection"
0(686) : error C1503: undefined variable "process_portal_intersection""#;
        assert!(shader_error_parser(linux1).iter().all(|x| x.is_ok()));
        let linux2 = r#"0(277) : error C1503: undefined variable "borer_m"
0(292) : error C0000: syntax error, unexpected '}', expecting ',' or ';' at token "}"
0(284) : error C1110: function "two_lines_nearest_points" has no return statement
0(295) : error C1115: unable to find compatible overloaded function "dot(mat3, vec3)"
0(299) : error C1102: incompatible type for parameter #1 ("a.84")"#;
        assert!(shader_error_parser(linux2).iter().all(|x| x.is_ok()));
        let linux3 = r#"0(365) : warning C7022: unrecognized profile specifier "a""#;
        assert!(shader_error_parser(linux3).iter().all(|x| x.is_ok()));
        let web_linux = r#"ERROR: 0:565: 'pos' : redefinition
ERROR: 0:586: 'pos' : redefinition
ERROR: 0:606: 'pos' : redefinition
ERROR: 0:607: '<' : comparison operator only defined for scalars
ERROR: 0:607: '<' : wrong operand types - no operation '<' exists that takes a left-hand operand of type 'in highp 4-component vector of float' and a right operand of type 'const float' (or there is no acceptable conversion)
ERROR: 0:613: '<' : comparison operator only defined for scalars
ERROR: 0:613: '<' : wrong operand types - no operation '<' exists that takes a left-hand operand of type 'in highp 4-component vector of float' and a right operand of type 'const float' (or there is no acceptable conversion)"#;
        assert!(shader_error_parser(web_linux).iter().all(|x| x.is_ok()));
}

#[test]
fn gui_shader_error_parser_test() {
        let linux1 = r#"0(270) : error C0000: syntax error, unexpected '}' at token "}"
0(286) : error C1503: undefined variable "a"
0(286) : error C1503: undefined variable "n"
0(287) : error C1503: undefined variable "b"
0(287) : error C1503: undefined variable "n"
0(288) : error C0000: syntax error, unexpected reserved word "return" at token "return"
0(327) : error C1503: undefined variable "two_lines_nearest_points"
0(327) : error C1503: undefined variable "l"
0(327) : error C1503: undefined variable "r"
0(329) : error C1503: undefined variable "l"
0(329) : error C1503: undefined variable "l"
0(330) : error C1503: undefined variable "r"
0(330) : error C1503: undefined variable "r"
0(332) : error C1059: non constant expression in initialization
0(334) : error C0000: syntax error, unexpected reserved word "if" at token "if"
0(347) : error C1503: undefined variable "u"
0(348) : error C1503: undefined variable "u"
0(349) : error C1503: undefined variable "u"
0(350) : error C0000: syntax error, unexpected reserved word "return" at token "return"
0(359) : error C1503: undefined variable "u"
0(359) : error C1038: declaration of "b" conflicts with previous declaration at 0(347)
0(360) : error C1503: undefined variable "u"
0(360) : error C1038: declaration of "c" conflicts with previous declaration at 0(348)
0(361) : error C1503: undefined variable "u"
0(361) : error C1038: declaration of "d" conflicts with previous declaration at 0(349)
0(362) : error C0000: syntax error, unexpected reserved word "return" at token "return"
0(373) : error C0000: syntax error, unexpected '}' at token "}"
0(375) : error C0000: syntax error, unexpected '(', expecting "::" at token "("
0(378) : error C1503: undefined variable "mobius_step"
0(378) : error C1503: undefined variable "r"
0(379) : error C0000: syntax error, unexpected reserved word "for" at token "for"
0(433) : error C1503: undefined variable "op"
0(433) : error C1503: undefined variable "r"
0(433) : error C1038: declaration of "b" conflicts with previous declaration at 0(347)
0(434) : error C1503: undefined variable "op"
0(434) : error C1503: undefined variable "op"
0(435) : error C0000: syntax error, unexpected reserved word "return" at token "return"
0(550) : error C1503: undefined variable "is_inside_triangle"
0(555) : error C1503: undefined variable "is_inside_triangle"
0(631) : error C1503: undefined variable "process_plane_intersection"
0(635) : error C1503: undefined variable "process_plane_intersection"
0(639) : error C1503: undefined variable "process_plane_intersection"
0(643) : error C1503: undefined variable "process_plane_intersection"
0(647) : error C1503: undefined variable "process_plane_intersection"
0(651) : error C1503: undefined variable "process_plane_intersection"
0(655) : error C1503: undefined variable "process_plane_intersection"
0(659) : error C1503: undefined variable "process_plane_intersection"
0(664) : error C1503: undefined variable "process_portal_intersection"
0(668) : error C1503: undefined variable "process_portal_intersection"
0(673) : error C1503: undefined variable "process_portal_intersection"
0(677) : error C1503: undefined variable "process_portal_intersection"
0(680) : error C1503: undefined variable "a2_mat"
0(682) : error C1503: undefined variable "process_portal_intersection"
0(686) : error C1503: undefined variable "process_portal_intersection""#;
        assert!(shader_error_parser(linux1).iter().all(|x| x.is_ok()));
        let linux2 = r#"0(277) : error C1503: undefined variable "borer_m"
0(292) : error C0000: syntax error, unexpected '}', expecting ',' or ';' at token "}"
0(284) : error C1110: function "two_lines_nearest_points" has no return statement
0(295) : error C1115: unable to find compatible overloaded function "dot(mat3, vec3)"
0(299) : error C1102: incompatible type for parameter #1 ("a.84")"#;
        assert!(shader_error_parser(linux2).iter().all(|x| x.is_ok()));
        let linux3 = r#"0(365) : warning C7022: unrecognized profile specifier "a""#;
        assert!(shader_error_parser(linux3).iter().all(|x| x.is_ok()));
        let web_linux = r#"ERROR: 0:565: 'pos' : redefinition
ERROR: 0:586: 'pos' : redefinition
ERROR: 0:606: 'pos' : redefinition
ERROR: 0:607: '<' : comparison operator only defined for scalars
ERROR: 0:607: '<' : wrong operand types - no operation '<' exists that takes a left-hand operand of type 'in highp 4-component vector of float' and a right operand of type 'const float' (or there is no acceptable conversion)
ERROR: 0:613: '<' : comparison operator only defined for scalars
ERROR: 0:613: '<' : wrong operand types - no operation '<' exists that takes a left-hand operand of type 'in highp 4-component vector of float' and a right operand of type 'const float' (or there is no acceptable conversion)"#;
        assert!(shader_error_parser(web_linux).iter().all(|x| x.is_ok()));
}

#[test]
fn shader_error_parser_reads_numbers_and_messages() {
    let r = shader_error_parser("0(270) : error C0000: syntax error\n0(365) : warning C7022: x\nERROR: 0:586: 'pos' : redefinition");
    assert_eq!(
        r,
        vec![
            Ok((270, "C0000: syntax error")),
            Ok((365, "C7022: x")),
            Ok((586, "'pos' : redefinition")),
        ]
    );
}

#[test]
fn shader_error_parser_keeps_unknown_lines() {
    let r = shader_error_parser("hello\n0() : error x\n0(12) : note y\n");
    assert_eq!(r, vec![Err("hello"), Err("0() : error x"), Err("0(12) : note y"), Err("")]);
}

#[test]
fn shader_error_parser_rejects_numbers_that_do_not_fit() {
    let r = shader_error_parser("0(99999999999999999999999) : error big");
    assert_eq!(r, vec![Err("0(99999999999999999999999) : error big")]);
    let r = shader_error_parser("0(18446744073709551615) : error max");
    assert_eq!(r, vec![Ok((18446744073709551615usize, "max"))]);
}

#[test]
fn shader_error_parser_empty_input_is_one_empty_line() {
    assert_eq!(shader_error_parser(""), vec![Err("")]);
}

#[test]
fn shader_errors_are_filed_under_their_source() {
    // Code of identifier 1000 sits on lines 10..13, code of identifier 2000 on lines 20..30.
    let lines = LineNumbersByKey::from_entries(vec![(ErrId(1000), 10..13), (ErrId(2000), 20..30)]);
    let output = "0(11) : error C0000: first\n0(5) : error C1: outside\nERROR: 0:25: 'x' : second\nbroken\n0(12) : warning C7: third";
    let errors = shader_errors_by_source(output, &lines);
    assert_eq!(errors.len(), 3);
    assert_eq!(
        errors[&1000],
        vec![(2, "C0000: first".to_owned()), (3, "C7: third".to_owned())]
    );
    assert_eq!(errors[&2000], vec![(6, "'x' : second".to_owned())]);
    assert_eq!(
        errors[&0],
        vec![(5, "C1: outside".to_owned()), (usize::MAX, "broken".to_owned())]
    );
}
