use sqlite_reader::query::{column_index, column_position, count_argument_of, count_argument_with};
use sqlite_reader::schema::{
    find_index_on, find_named, lookup_index, lookup_table, parse_columns, parse_create_index_sql,
    parse_create_table_sql, parse_index_table_sql, Column, Schema,
};
use sqlite_reader::sql::keywords::{get, lookup};
use sqlite_reader::sql::parser::{Expr, Literal, Parser, Stmt};
use sqlite_reader::sql::scanner::{identifier_part, Scanner};
use sqlite_reader::sql::token::{Token, TokenType};
use sqlite_reader::text::{
    chars_of, compare_bytes, compare_text, decimal_text, integer_of, integer_shown_as, is_digit,
    is_whitespace, same_text, text_of, trimmed,
};

fn scan(sql: &str) -> Vec<Token> {
    let mut scanner = Scanner::new(sql.to_string());
    scanner.scan_tokens().clone()
}

fn kinds(sql: &str) -> Vec<TokenType> {
    scan(sql).iter().map(|token| token.token_type).collect()
}

fn parse(sql: &str) -> Result<Vec<Stmt>, String> {
    let mut parser = Parser::new(scan(sql));
    parser.parse().map_err(|e| format!("{} [{}]", e.message, e.token.lexeme))
}

fn pairs(columns: &[Column]) -> Vec<(&str, &str)> {
    columns.iter().map(|c| (c.name.as_str(), c.declared_type.as_str())).collect()
}

#[test]
fn keywords_in_any_case() {
    assert_eq!(get("select"), Some(TokenType::Select));
    assert_eq!(get("SeLeCt"), Some(TokenType::Select));
    assert_eq!(get("FROM"), Some(TokenType::From));
    assert_eq!(get("where"), Some(TokenType::Where));
    assert_eq!(get("and"), Some(TokenType::And));
    assert_eq!(get("or"), Some(TokenType::Or));
    assert_eq!(get("insert"), Some(TokenType::Insert));
    assert_eq!(get("into"), Some(TokenType::Into));
    assert_eq!(get("values"), Some(TokenType::Values));
    assert_eq!(get("create"), Some(TokenType::Create));
    assert_eq!(get("table"), Some(TokenType::Table));
    assert_eq!(get("delete"), Some(TokenType::Delete));
    assert_eq!(get("update"), Some(TokenType::Update));
    assert_eq!(get("set"), Some(TokenType::SetKeyword));
    assert_eq!(get("as"), Some(TokenType::As));
    assert_eq!(get("apples"), None);
    assert_eq!(get(""), None);
}

#[test]
fn keyword_table_holds_upper_case_only() {
    assert_eq!(lookup("SELECT"), Some(TokenType::Select));
    assert_eq!(lookup("select"), None);
    assert_eq!(lookup("SELECTS"), None);
}

#[test]
fn tokens_of_a_statement() {
    assert_eq!(
        kinds("SELECT id, name FROM apples WHERE color = 'Yellow';"),
        vec![
            TokenType::Select,
            TokenType::Identifier,
            TokenType::Comma,
            TokenType::Identifier,
            TokenType::From,
            TokenType::Identifier,
            TokenType::Where,
            TokenType::Identifier,
            TokenType::Equal,
            TokenType::String,
            TokenType::Semicolon,
            TokenType::EOF,
        ]
    );
}

#[test]
fn comparison_operators() {
    assert_eq!(
        kinds("= != < <= > >= ! ( ) . *"),
        vec![
            TokenType::Equal,
            TokenType::NotEqual,
            TokenType::Less,
            TokenType::LessEqual,
            TokenType::Greater,
            TokenType::GreaterEqual,
            TokenType::LeftParen,
            TokenType::RightParen,
            TokenType::Dot,
            TokenType::Star,
            TokenType::EOF,
        ]
    );
    assert_eq!(scan("a<=b")[1].lexeme, "<=");
}

#[test]
fn string_literals_keep_what_stands_between_the_quotes() {
    let tokens = scan("'Light Green' \"two\nlines\" 'open");
    assert_eq!(tokens.len(), 3);
    assert_eq!(tokens[0].token_type, TokenType::String);
    assert_eq!(tokens[0].lexeme, "'Light Green'");
    assert_eq!(tokens[0].literal.as_deref(), Some("Light Green"));
    assert_eq!(tokens[0].line, 1);
    assert_eq!(tokens[1].literal.as_deref(), Some("two\nlines"));
    assert_eq!(tokens[1].line, 2);
    assert_eq!(tokens[2].token_type, TokenType::EOF);
    assert_eq!(tokens[2].line, 2);
}

#[test]
fn numbers_and_lines() {
    let tokens = scan("12 3.5\n7. x");
    assert_eq!(tokens[0].literal.as_deref(), Some("12"));
    assert_eq!(tokens[1].literal.as_deref(), Some("3.5"));
    assert_eq!(tokens[1].token_type, TokenType::Number);
    assert_eq!(tokens[2].literal.as_deref(), Some("7"));
    assert_eq!(tokens[2].line, 2);
    assert_eq!(tokens[3].token_type, TokenType::Dot);
    assert_eq!(tokens[4].token_type, TokenType::Identifier);
    assert_eq!(tokens[4].lexeme, "x");
    assert_eq!(tokens[5].token_type, TokenType::EOF);
    assert_eq!(tokens[5].lexeme, "");
}

#[test]
fn identifiers_are_letters_and_underscores() {
    let tokens = scan("sqlite_sequence Été col1 _x");
    assert_eq!(tokens[0].lexeme, "sqlite_sequence");
    assert_eq!(tokens[0].token_type, TokenType::Identifier);
    assert_eq!(tokens[0].literal, None);
    assert_eq!(tokens[1].lexeme, "Été");
    assert_eq!(tokens[2].lexeme, "col");
    assert_eq!(tokens[3].token_type, TokenType::Number);
    // An underscore starts no identifier.
    assert_eq!(tokens[4].lexeme, "x");
    assert!(identifier_part('_', false));
    assert!(identifier_part('x', true));
    assert!(!identifier_part('1', false));
}

#[test]
fn empty_statement_is_one_end_token() {
    assert_eq!(kinds(""), vec![TokenType::EOF]);
    assert_eq!(kinds(" \t\r\n"), vec![TokenType::EOF]);
    assert_eq!(scan("\n\n")[0].line, 3);
}

#[test]
fn token_constructor_keeps_its_arguments() {
    let token = Token::new(TokenType::Number, "1".to_string(), Some("1".to_string()), 9);
    assert_eq!(token.token_type, TokenType::Number);
    assert_eq!(token.lexeme, "1");
    assert_eq!(token.literal.as_deref(), Some("1"));
    assert_eq!(token.line, 9);
    let copy = token.duplicate();
    assert_eq!(copy.lexeme, "1");
    assert_eq!(copy.line, 9);
}

#[test]
fn select_statement_is_parsed() {
    let stmts = parse("SELECT name, COUNT(*) FROM apples AS a WHERE color = 'Yellow'").unwrap();
    assert_eq!(stmts.len(), 1);
    let Stmt::Select(columns, from, condition) = &stmts[0];
    assert_eq!(columns.len(), 2);
    assert!(matches!(&columns[0], Expr::Identifier(name) if name == "name"));
    match &columns[1] {
        Expr::FunctionCall(function, args) => {
            assert!(matches!(&**function, Expr::Identifier(name) if name == "COUNT"));
            assert_eq!(args.len(), 1);
            assert!(matches!(args[0], Expr::Wildcard));
        }
        other => panic!("unexpected {:?}", other),
    }
    let table = from.as_ref().unwrap();
    assert_eq!(table.name, "apples");
    assert_eq!(table.alias.as_deref(), Some("a"));
    match condition.as_ref().unwrap() {
        Expr::BinaryOp(left, op, right) => {
            assert!(matches!(&**left, Expr::Identifier(name) if name == "color"));
            assert_eq!(op.token_type, TokenType::Equal);
            assert!(matches!(&**right, Expr::Literal(Literal::String(s)) if s == "Yellow"));
        }
        other => panic!("unexpected {:?}", other),
    }
}

#[test]
fn calls_may_nest_and_have_no_arguments() {
    let stmts = parse("SELECT f(g(x, 1), *), h() FROM t").unwrap();
    let Stmt::Select(columns, _, condition) = &stmts[0];
    assert!(condition.is_none());
    match &columns[0] {
        Expr::FunctionCall(_, args) => {
            assert_eq!(args.len(), 2);
            match &args[0] {
                Expr::FunctionCall(inner, inner_args) => {
                    assert!(matches!(&**inner, Expr::Identifier(name) if name == "g"));
                    assert!(matches!(&inner_args[1], Expr::Literal(Literal::Number(n)) if n == "1"));
                }
                other => panic!("unexpected {:?}", other),
            }
            assert!(matches!(args[1], Expr::Wildcard));
        }
        other => panic!("unexpected {:?}", other),
    }
    assert!(matches!(&columns[1], Expr::FunctionCall(_, args) if args.is_empty()));
}

#[test]
fn statements_may_follow_each_other() {
    assert_eq!(parse("SELECT a FROM t SELECT b FROM u").unwrap().len(), 2);
    assert_eq!(parse("").unwrap().len(), 0);
}

#[test]
fn rejections_name_what_was_expected() {
    assert_eq!(parse("SELECT a t").unwrap_err(), "Expected 'FROM' after select columns [t]");
    assert_eq!(parse("SELECT FROM t").unwrap_err(), "Expected expression [FROM]");
    assert_eq!(parse("SELECT a FROM").unwrap_err(), "Expected table name []");
    assert_eq!(parse("SELECT a FROM t AS").unwrap_err(), "Expected table alias []");
    assert_eq!(
        parse("SELECT f(a FROM t").unwrap_err(),
        "Expected ')' after function arguments [FROM]"
    );
    assert_eq!(
        parse("SELECT a FROM t WHERE 1 = a").unwrap_err(),
        "Expected column name after 'WHERE' [1]"
    );
    assert_eq!(parse("SELECT a FROM t WHERE a b").unwrap_err(), "Expected comparison operator [b]");
    assert_eq!(parse("SELECT a FROM t WHERE a =").unwrap_err(), "Expected expression []");
    assert_eq!(parse("UPDATE t").unwrap_err(), "Expected 'SELECT' [UPDATE]");
    assert_eq!(parse("SELECT a FROM t;").unwrap_err(), "Expected 'SELECT' [;]");
}

#[test]
fn parser_puts_an_end_token_after_tokens_without_one() {
    let mut tokens = scan("SELECT a FROM t");
    tokens.pop();
    let mut parser = Parser::new(tokens);
    assert_eq!(parser.parse().unwrap().len(), 1);
    let mut empty = Parser::new(Vec::new());
    assert_eq!(empty.parse().unwrap().len(), 0);
}

#[test]
fn create_table_columns() {
    let columns = parse_create_table_sql(
        "CREATE TABLE apples\n(\n\tid integer primary key autoincrement,\n\tname text,\n\tcolor text\n)",
    );
    assert_eq!(
        pairs(&columns),
        vec![("id", "integer primary key autoincrement"), ("name", "text"), ("color", "text")]
    );
}

#[test]
fn create_table_is_lowercased() {
    assert_eq!(
        pairs(&parse_create_table_sql("CREATE TABLE T (ID INTEGER, Name TEXT)")),
        vec![("id", "integer"), ("name", "text")]
    );
}

#[test]
fn quoted_names_and_missing_types() {
    assert_eq!(
        pairs(&parse_create_table_sql(
            "create table t (\"size range\" text, weight, \"open, price decimal(10,2) ,, )"
        )),
        vec![("size range", "text"), ("weight", ""), ("open", ""), ("price", "decimal(10,2)")]
    );
    assert_eq!(pairs(&parse_create_table_sql("CREATE TABLE sqlite_sequence(name,seq)")), vec![
        ("name", ""),
        ("seq", "")
    ]);
}

#[test]
fn statements_without_a_column_list_have_no_columns() {
    assert_eq!(parse_create_table_sql("create table t").len(), 0);
    assert_eq!(parse_create_table_sql("create table t )a(").len(), 0);
    assert_eq!(parse_create_table_sql("create table t ()").len(), 0);
    assert_eq!(parse_create_table_sql("").len(), 0);
}

#[test]
fn columns_of_a_lower_case_statement() {
    assert_eq!(pairs(&parse_columns("t (a int, b)", true)), vec![("a", "int"), ("b", "")]);
    assert_eq!(pairs(&parse_columns("t (a int, b)", false)), vec![("a", ""), ("b", "")]);
    // What is given is taken as it is.
    assert_eq!(pairs(&parse_columns("T (A INT)", true)), vec![("A", "INT")]);
}

#[test]
fn create_index_columns_and_table() {
    let sql = "CREATE INDEX idx_companies_country\n\ton companies (Country)";
    assert_eq!(pairs(&parse_create_index_sql(sql)), vec![("country", "")]);
    assert_eq!(parse_index_table_sql(sql), Some("companies".to_string()));
    assert_eq!(
        parse_index_table_sql("create index i ON \"My Table\"(a desc, b)"),
        Some("my table".to_string())
    );
    assert_eq!(
        pairs(&parse_create_index_sql("create index i ON \"My Table\"(a desc, b)")),
        vec![("a", ""), ("b", "")]
    );
    assert_eq!(parse_index_table_sql("create index onion t(a)"), None);
    assert_eq!(parse_index_table_sql("create index i on"), None);
    assert_eq!(parse_index_table_sql("create index i on t(a)"), Some("t".to_string()));
}

#[test]
fn integers_are_read_from_text() {
    let read = |s: &str| integer_of(&chars_of(s));
    assert_eq!(read("0"), Some(0));
    assert_eq!(read("42"), Some(42));
    assert_eq!(read("-42"), Some(-42));
    assert_eq!(read("+7"), Some(7));
    assert_eq!(read("007"), Some(7));
    assert_eq!(read("9223372036854775807"), Some(i64::MAX));
    assert_eq!(read("-9223372036854775808"), Some(i64::MIN));
    assert_eq!(read("9223372036854775808"), None);
    assert_eq!(read("-9223372036854775809"), None);
    assert_eq!(read("99999999999999999999999"), None);
    assert_eq!(read(""), None);
    assert_eq!(read("-"), None);
    assert_eq!(read("1.5"), None);
    assert_eq!(read(" 1"), None);
    assert_eq!(read("NULL"), None);
}

#[test]
fn integers_are_written_in_decimal() {
    assert_eq!(decimal_text(0), "0");
    assert_eq!(decimal_text(7), "7");
    assert_eq!(decimal_text(10), "10");
    assert_eq!(decimal_text(-1), "-1");
    assert_eq!(decimal_text(1234567890), "1234567890");
    assert_eq!(decimal_text(i64::MIN), "-9223372036854775808");
}

#[test]
fn texts_compare_by_code_point() {
    let order = |a: &str, b: &str| compare_text(&chars_of(a), &chars_of(b));
    assert_eq!(order("a", "b"), -1);
    assert_eq!(order("b", "a"), 1);
    assert_eq!(order("abc", "abc"), 0);
    assert_eq!(order("ab", "abc"), -1);
    assert_eq!(order("abc", "ab"), 1);
    assert_eq!(order("", ""), 0);
    assert_eq!(order("Z", "a"), -1);
    assert_eq!(order("z", "é"), -1);
    assert!(same_text("é", "é"));
    assert!(!same_text("e", "é"));
    assert!(!same_text("ab", "abc"));
}

#[test]
fn characters_and_trimming() {
    assert!(is_whitespace(' '));
    assert!(is_whitespace('\n'));
    assert!(is_whitespace('\u{3000}'));
    assert!(!is_whitespace('a'));
    assert!(!is_whitespace('\u{200b}'));
    assert!(is_digit('0') && is_digit('9') && !is_digit('a') && !is_digit('٣'));
    assert_eq!(trimmed(&chars_of(" \t a b \n")), chars_of("a b"));
    assert_eq!(trimmed(&chars_of("   ")), chars_of(""));
    assert_eq!(text_of(&chars_of("héllo"), 1, 3), "él");
    assert_eq!(chars_of("hé"), vec!['h', 'é']);
}

#[test]
fn lexer_goes_by_the_letters_that_it_is_given() {
    let source = chars_of("ab1 c");
    // The digit is called a letter, the `b` is not.
    let letters = vec![true, false, true, false, true];
    let mut scanner = Scanner::with_letters(source, letters);
    let tokens = scanner.scan_tokens().clone();
    let lexemes: Vec<&str> = tokens.iter().map(|t| t.lexeme.as_str()).collect();
    assert_eq!(lexemes, vec!["a", "1", "c", ""]);
    assert_eq!(tokens[1].token_type, TokenType::Number);
    let mut none = Scanner::with_letters(chars_of("ab"), vec![false, false]);
    assert_eq!(none.scan_tokens().len(), 1);
}

#[test]
fn columns_are_found_by_their_lower_case_names() {
    let columns = parse_create_table_sql("create table t (id integer, Name text, name blob)");
    assert_eq!(column_position(&columns, "name"), Some(1));
    assert_eq!(column_position(&columns, "Name"), None);
    assert_eq!(column_position(&columns, "id"), Some(0));
    assert_eq!(column_index(&columns, "NAME"), Some(1));
    assert_eq!(column_index(&columns, "age"), None);
}

#[test]
fn count_calls_are_told_by_the_lower_case_name() {
    let star = vec![Expr::Wildcard];
    assert_eq!(count_argument_with(&star, "count"), Some(None));
    assert_eq!(count_argument_with(&star, "COUNT"), None);
    assert_eq!(count_argument_with(&star, "sum"), None);
    let named = vec![Expr::Identifier("Id".to_string())];
    assert_eq!(count_argument_with(&named, "count"), Some(Some("Id".to_string())));
    assert_eq!(count_argument_with(&Vec::new(), "count"), None);
    let two = vec![Expr::Wildcard, Expr::Wildcard];
    assert_eq!(count_argument_with(&two, "count"), None);
    let literal = vec![Expr::Literal(Literal::Null)];
    assert_eq!(count_argument_with(&literal, "count"), None);
    let call = Expr::FunctionCall(Box::new(Expr::Identifier("Count".to_string())), star);
    assert_eq!(count_argument_of(&call), Some(None));
    assert_eq!(count_argument_of(&Expr::Wildcard), None);
}

fn schema(table: &str, columns: &[&str]) -> Schema {
    Schema {
        schema_name: String::new(),
        table_name: table.to_string(),
        sql: String::new(),
        root_page: 2,
        columns: columns
            .iter()
            .map(|c| Column { name: c.to_string(), declared_type: String::new() })
            .collect(),
    }
}

#[test]
fn names_are_looked_up_from_the_end() {
    let names = vec!["a".to_string(), "b".to_string(), "a".to_string(), "c".to_string()];
    assert_eq!(find_named(&names, "a"), Some(2));
    assert_eq!(find_named(&names, "c"), Some(3));
    assert_eq!(find_named(&names, "A"), None);
    assert_eq!(find_named(&Vec::new(), "a"), None);
    let schemas = vec![schema("T", &["x"]), schema("u", &["x", "y"]), schema("t", &["y"])];
    assert_eq!(lookup_table(&schemas, "t"), Some(2));
    assert_eq!(lookup_table(&schemas, "U"), Some(1));
    assert_eq!(lookup_table(&schemas, "v"), None);
    assert_eq!(lookup_index(&schemas, "t", "X"), Some(0));
    assert_eq!(lookup_index(&schemas, "T", "y"), Some(2));
    assert_eq!(lookup_index(&schemas, "u", "x"), None);
    let tables = vec!["t".to_string(), "u".to_string(), "t".to_string()];
    assert_eq!(find_index_on(&schemas, &tables, "t", "x"), Some(0));
    assert_eq!(find_index_on(&schemas, &tables, "T", "x"), None);
    assert_eq!(find_index_on(&schemas, &tables, "t", "z"), None);
}

#[test]
fn integers_as_they_are_shown() {
    assert_eq!(integer_shown_as("0"), Some(0));
    assert_eq!(integer_shown_as("5"), Some(5));
    assert_eq!(integer_shown_as("-12"), Some(-12));
    assert_eq!(integer_shown_as("9223372036854775807"), Some(i64::MAX));
    assert_eq!(integer_shown_as("-9223372036854775808"), Some(i64::MIN));
    // Texts that spell an integer in another way than it is shown.
    assert_eq!(integer_shown_as("007"), None);
    assert_eq!(integer_shown_as("-0"), None);
    assert_eq!(integer_shown_as("+5"), None);
    assert_eq!(integer_shown_as(" 5"), None);
    // Texts that spell no integer of 64 bits.
    assert_eq!(integer_shown_as("9223372036854775808"), None);
    assert_eq!(integer_shown_as(""), None);
    assert_eq!(integer_shown_as("-"), None);
    assert_eq!(integer_shown_as("5a"), None);
    assert_eq!(integer_shown_as("1.5"), None);
    assert_eq!(integer_shown_as("NULL"), None);
}

#[test]
fn byte_order() {
    assert_eq!(compare_bytes(&vec![1, 2], &vec![1, 2]), 0);
    assert_eq!(compare_bytes(&vec![1, 2], &vec![1, 3]), -1);
    assert_eq!(compare_bytes(&vec![2], &vec![1, 3]), 1);
    assert_eq!(compare_bytes(&vec![], &vec![0]), -1);
    assert_eq!(compare_bytes(&vec![0x80], &vec![0x7f]), 1);
}
