use swindex::edgelist::distinct_ends;
use swindex::gml::GmlDocument;
use swindex::source::mint;
use swindex::sql_dump::Schema;
use swindex::text::{decimal_text, parse_signed, parse_unsigned};
use swindex::{
    EdgeKind, EdgeListError, EdgeListSource, GmlError, GmlSource, Graph, GraphSource, NodeKind,
    SqlDumpError, SqlDumpSource, Uuid7,
};

/// Zachary's karate club: the friendships of its 34 members, by their numbers.
const KARATE: [(usize, &[usize]); 26] = [
    (1, &[2, 3, 4, 5, 6, 7, 8, 9, 11, 12, 13, 14, 18, 20, 22, 32]),
    (2, &[3, 4, 8, 14, 18, 20, 22, 31]),
    (3, &[4, 8, 9, 10, 14, 28, 29, 33]),
    (4, &[8, 13, 14]),
    (5, &[7, 11]),
    (6, &[7, 11, 17]),
    (7, &[17]),
    (9, &[31, 33, 34]),
    (10, &[34]),
    (14, &[34]),
    (15, &[33, 34]),
    (16, &[33, 34]),
    (19, &[33, 34]),
    (20, &[34]),
    (21, &[33, 34]),
    (23, &[33, 34]),
    (24, &[26, 28, 30, 33, 34]),
    (25, &[26, 28, 32]),
    (26, &[32]),
    (27, &[30, 34]),
    (28, &[34]),
    (29, &[32, 34]),
    (30, &[33, 34]),
    (31, &[33, 34]),
    (32, &[33, 34]),
    (33, &[34]),
];

/// The karate club as a GML document.
fn karate_gml() -> String {
    let mut text = String::from("Creator \"karate club\"\ngraph [\n  directed 0\n");
    for id in 1..=34 {
        text.push_str(&format!("  node [ id {id} ]\n"));
    }
    for (a, friends) in KARATE {
        for b in friends {
            text.push_str(&format!("  edge [ source {b} target {a} ]\n"));
        }
    }
    text.push_str("]\n");
    text
}

/// The karate club, loaded.
fn karate() -> GmlSource {
    match GmlSource::from_str(&karate_gml(), &NodeKind::new("member"), &EdgeKind::new("friendship")) {
        Ok(source) => source,
        Err(e) => panic!("{}", e.to_string()),
    }
}

fn kinds() -> (NodeKind, EdgeKind) {
    (NodeKind::new("n"), EdgeKind::new("e"))
}

fn edge_list(text: &str) -> EdgeListSource {
    let (nk, ek) = kinds();
    match EdgeListSource::from_str(text, &nk, &ek) {
        Ok(source) => source,
        Err(e) => panic!("{}", e.to_string()),
    }
}

#[test]
fn parses_snap_conventions() {
    let text = "# Directed graph (each unordered pair listed twice)\n\
                # FromNodeId\tToNodeId\n\
                10\t20\n\
                20\t10\n\
                \n\
                20 30\n\
                30\t10\n";
    let src = edge_list(text);
    assert_eq!(src.node_count(), 3);
    assert_eq!(src.edge_count(), 3);

    let g = Graph::from_source(&src).ok().unwrap();
    assert_eq!(g.node_count(), 3);
    for i in 0..3 {
        assert_eq!(g.degree(i), 2);
    }
}

#[test]
fn labels_preserve_original_ids() {
    let src = edge_list("7 99\n");
    let labels: Vec<String> = src
        .nodes()
        .iter()
        .map(|n| src.label_of(n.id).expect("every node is labeled"))
        .collect();
    assert_eq!(labels, vec!["7".to_string(), "99".to_string()]);
    assert_eq!(src.label_of(Uuid7::now()), None);
}

#[test]
fn self_loops_are_kept() {
    let src = edge_list("5 5\n5 6\n");
    assert_eq!(src.edge_count(), 2);
    let g = Graph::from_source(&src).ok().unwrap();
    assert!(g.self_loop(0) > 0);
}

#[test]
fn malformed_line_reports_line_number() {
    let (nk, ek) = kinds();
    let Err(err) = EdgeListSource::from_str("1 2\nnot numbers\n", &nk, &ek) else {
        panic!("expected a parse error on a non-numeric line");
    };
    match &err {
        EdgeListError::Parse { line_no, line } => {
            assert_eq!(*line_no, 2);
            assert_eq!(line, "not numbers");
        }
    }
    assert_eq!(err.to_string(), "edge-list parse error at line 2: \"not numbers\"");
    let Err(err) = EdgeListSource::from_str("1 2 3\n", &nk, &ek) else {
        panic!("expected a parse error on a three-field line");
    };
    assert!(matches!(err, EdgeListError::Parse { line_no: 1, .. }));
}

#[test]
fn edge_list_numbers_have_limits() {
    let (nk, ek) = kinds();
    assert!(EdgeListSource::from_str("18446744073709551615 +0", &nk, &ek).is_ok());
    assert!(EdgeListSource::from_str("18446744073709551616 0", &nk, &ek).is_err());
    assert!(EdgeListSource::from_str("-1 0", &nk, &ek).is_err());
    assert!(EdgeListSource::from_str("1", &nk, &ek).is_err());
    assert_eq!(edge_list("").node_count(), 0);
    assert_eq!(edge_list("  \r\n\t# note\r\n1 2\r\n").edge_count(), 1);
}

#[test]
fn parse_is_deterministic() {
    let text = "3 1\n2 3\n1 2\n";
    let a = edge_list(text);
    let b = edge_list(text);
    let labels_a: Vec<_> = a.nodes().iter().map(|n| a.label_of(n.id).unwrap()).collect();
    let labels_b: Vec<_> = b.nodes().iter().map(|n| b.label_of(n.id).unwrap()).collect();
    assert_eq!(labels_a, labels_b);
    assert_eq!(labels_a, vec!["1", "2", "3"]);
}

/// Two nodes and an edge, and a scalar that is passed over.
const MINI_GML: &str = r#"
    Creator "tests"
    graph [
        directed 0
        node [ id 1 ]
        node [ id 2 ]
        edge [ source 1 target 2 weight 1.0 ]
    ]
"#;

fn gml(text: &str, node: &str, edge: &str) -> GmlSource {
    match GmlSource::from_str(text, &NodeKind::new(node), &EdgeKind::new(edge)) {
        Ok(source) => source,
        Err(e) => panic!("{}", e.to_string()),
    }
}

fn gml_error(text: &str) -> GmlError {
    match GmlSource::from_str(text, &NodeKind::new("n"), &EdgeKind::new("e")) {
        Ok(_) => panic!("expected an error"),
        Err(e) => e,
    }
}

#[test]
fn empty_graph_yields_no_nodes_or_edges() {
    let src = gml("graph [ ]", "n", "e");
    assert_eq!(src.node_len(), 0);
    assert_eq!(src.edge_len(), 0);
    assert_eq!(src.nodes().len(), 0);
    assert_eq!(src.edges().len(), 0);
}

#[test]
fn minimal_graph_parses_correctly() {
    let src = gml(MINI_GML, "person", "knows");
    assert_eq!(src.node_len(), 2);
    assert_eq!(src.edge_len(), 1);

    let nodes = src.nodes();
    let edges = src.edges();

    assert_eq!(nodes[0].kind.as_str(), "person");
    assert_eq!(edges[0].kind.as_str(), "knows");
    assert_eq!(edges[0].source, nodes[0].id);
    assert_eq!(edges[0].target, nodes[1].id);
}

#[test]
fn gml_iteration_is_repeatable() {
    let src = gml(MINI_GML, "n", "e");
    let a = src.nodes();
    let b = src.nodes();
    assert_eq!(a, b);
}

#[test]
fn size_hints_are_exact() {
    let src = gml(MINI_GML, "n", "e");
    assert_eq!(src.node_count_hint(), Some(2));
    assert_eq!(src.edge_count_hint(), Some(1));
}

#[test]
fn missing_id_field_errors() {
    match gml_error("graph [ node [ label \"no id here\" ] ]") {
        GmlError::Parse { message, .. } => {
            assert!(message.contains("`id`"), "expected id-missing error, got: {message}");
        }
        other => panic!("expected GmlError::Parse, got {other:?}"),
    }
}

#[test]
fn edge_references_unknown_node_errors() {
    match gml_error("graph [ node [ id 1 ] edge [ source 1 target 99 ] ]") {
        GmlError::DanglingEdge { id, .. } => assert_eq!(id, 99),
        other => panic!("expected DanglingEdge, got {other:?}"),
    }
}

#[test]
fn dangling_edge_is_located() {
    let text = "graph [\nnode [ id 1 ]\nedge [\nsource 1\ntarget -7\n]\n]";
    let err = gml_error(text);
    assert!(matches!(err, GmlError::DanglingEdge { line: 3, id: -7 }));
    assert_eq!(
        err.to_string(),
        "gml dangling edge at line 3: references unknown node id -7"
    );
}

#[test]
fn unterminated_string_errors() {
    let err = gml_error(r#"Creator "no closing quote"#);
    assert!(err.to_string().starts_with("gml parse error at line "));
    match err {
        GmlError::Parse { message, .. } => {
            assert!(message.contains("unterminated"));
        }
        other => panic!("expected Parse error, got {other:?}"),
    }
}

#[test]
fn unexpected_characters_and_tokens_are_shown() {
    match gml_error("graph [ @ ]") {
        GmlError::Parse { message, .. } => assert!(message.contains("'@'"), "{message}"),
        other => panic!("expected Parse error, got {other:?}"),
    }
    match gml_error("graph [ \"x\" 1 ]") {
        GmlError::Parse { message, .. } => assert!(message.contains("\"x\""), "{message}"),
        other => panic!("expected Parse error, got {other:?}"),
    }
}

#[test]
fn comments_and_extra_whitespace_are_ignored() {
    let with_comments = r#"
        # a top-level comment
        Creator "x"
        graph [   # comment after open
            node [ id 1 ]   # trailing
            # entire-line comment between entries
            node [ id 2 ]
            edge [ source 1 target 2 ]
        ]
    "#;
    let src = gml(with_comments, "n", "e");
    assert_eq!(src.node_len(), 2);
    assert_eq!(src.edge_len(), 1);
}

#[test]
fn zachary_karate_club_loads() {
    let src = karate();
    assert_eq!(src.node_len(), 34);
    assert_eq!(src.edge_len(), 78);
    assert_eq!(src.node_count_hint(), Some(34));
    assert_eq!(src.edge_count_hint(), Some(78));
    assert_eq!(src.nodes().len(), 34);
    assert_eq!(src.edges().len(), 78);
    for n in src.nodes() {
        assert_eq!(n.kind.as_str(), "member");
    }
    for e in src.edges() {
        assert_eq!(e.kind.as_str(), "friendship");
    }
}

fn sql(text: &str) -> SqlDumpSource {
    match SqlDumpSource::from_sql(text) {
        Ok(source) => source,
        Err(e) => panic!("{}", e.to_string()),
    }
}

/// Four tables and four foreign keys, one of them to its own table.
const SHOEBOX_SCHEMA: &str = r"
-- Test schema: 4 tables, 4 FKs, 1 self-reference.

DROP TABLE IF EXISTS `customer`;
CREATE TABLE `customer` (
  `customer_id` int NOT NULL AUTO_INCREMENT,
  `first_name` varchar(45) NOT NULL,
  PRIMARY KEY (`customer_id`)
) ENGINE=InnoDB DEFAULT CHARSET=utf8mb4;

DROP TABLE IF EXISTS `address`;
CREATE TABLE `address` (
  `address_id` int NOT NULL AUTO_INCREMENT,
  `customer_id` int NOT NULL,
  PRIMARY KEY (`address_id`),
  CONSTRAINT `fk_address_customer` FOREIGN KEY (`customer_id`) REFERENCES `customer` (`customer_id`) ON DELETE RESTRICT ON UPDATE CASCADE
) ENGINE=InnoDB DEFAULT CHARSET=utf8mb4;

DROP TABLE IF EXISTS `order_t`;
CREATE TABLE `order_t` (
  `order_id` int NOT NULL AUTO_INCREMENT,
  `customer_id` int NOT NULL,
  `parent_order_id` int DEFAULT NULL,
  PRIMARY KEY (`order_id`),
  CONSTRAINT `fk_order_customer` FOREIGN KEY (`customer_id`) REFERENCES `customer` (`customer_id`),
  CONSTRAINT `fk_order_parent` FOREIGN KEY (`parent_order_id`) REFERENCES `order_t` (`order_id`)
) ENGINE=InnoDB DEFAULT CHARSET=utf8mb4;

DROP TABLE IF EXISTS `order_item`;
CREATE TABLE `order_item` (
  `order_id` int NOT NULL,
  `product_id` int NOT NULL,
  PRIMARY KEY (`order_id`, `product_id`),
  CONSTRAINT `fk_oi_order` FOREIGN KEY (`order_id`) REFERENCES `order_t` (`order_id`)
) ENGINE=InnoDB DEFAULT CHARSET=utf8mb4;
";

#[test]
fn shoebox_schema_parses_4_tables() {
    let src = sql(SHOEBOX_SCHEMA);
    assert_eq!(src.table_count(), 4);
    let tables = src.tables_named();
    let names: Vec<&str> = tables.iter().map(|(n, _)| n.as_str()).collect();
    assert_eq!(names, vec!["address", "customer", "order_item", "order_t"]);
}

#[test]
fn shoebox_schema_parses_4_foreign_keys() {
    let src = sql(SHOEBOX_SCHEMA);
    assert_eq!(src.fk_count(), 4);
}

#[test]
fn graph_source_round_trip_works() {
    let src = sql(SHOEBOX_SCHEMA);
    let n1 = src.nodes();
    let n2 = src.nodes();
    assert_eq!(n1.len(), 4);
    assert_eq!(n1, n2);
    let e1 = src.edges();
    let e2 = src.edges();
    assert_eq!(e1.len(), 4);
    assert_eq!(e1, e2);
}

#[test]
fn dangling_fk_to_unknown_table_is_dropped_with_warning() {
    let text = r"
CREATE TABLE `a` (
  `id` int NOT NULL,
  PRIMARY KEY (`id`),
  CONSTRAINT `fk_a_phantom` FOREIGN KEY (`id`) REFERENCES `phantom` (`id`)
) ENGINE=InnoDB;
";
    let src = sql(text);
    assert_eq!(src.table_count(), 1);
    assert_eq!(
        src.fk_count(),
        0,
        "FK to undeclared table should be silently dropped"
    );
}

#[test]
fn self_referential_fk_creates_self_loop() {
    let text = r"
CREATE TABLE `tree` (
  `id` int NOT NULL,
  `parent_id` int DEFAULT NULL,
  PRIMARY KEY (`id`),
  CONSTRAINT `fk_tree_parent` FOREIGN KEY (`parent_id`) REFERENCES `tree` (`id`)
) ENGINE=InnoDB;
";
    let src = sql(text);
    assert_eq!(src.table_count(), 1);
    assert_eq!(src.fk_count(), 1);
    let edges = src.edges();
    assert_eq!(edges[0].source, edges[0].target);
}

#[test]
fn standalone_alter_table_fk_parses() {
    let text = r"
CREATE TABLE `a` ( `id` int NOT NULL, PRIMARY KEY (`id`) ) ENGINE=InnoDB;
CREATE TABLE `b` ( `id` int NOT NULL, `a_id` int, PRIMARY KEY (`id`) ) ENGINE=InnoDB;
ALTER TABLE `b` ADD CONSTRAINT `fk_b_a` FOREIGN KEY (`a_id`) REFERENCES `a` (`id`);
";
    let src = sql(text);
    assert_eq!(src.table_count(), 2);
    assert_eq!(src.fk_count(), 1);
}

#[test]
fn comments_and_block_directives_are_skipped() {
    let text = r"
-- This is a line comment
/*!40101 SET @OLD_CHARACTER_SET_CLIENT=@@CHARACTER_SET_CLIENT */;
/*!40103 SET @OLD_TIME_ZONE=@@TIME_ZONE */;

CREATE TABLE `t` ( `id` int NOT NULL, PRIMARY KEY (`id`) ) ENGINE=InnoDB;
-- trailing comment
";
    let src = sql(text);
    assert_eq!(src.table_count(), 1);
    assert_eq!(src.fk_count(), 0);
}

#[test]
fn empty_dump_parses_to_empty_source() {
    let src = sql("");
    assert_eq!(src.table_count(), 0);
    assert_eq!(src.fk_count(), 0);
}

#[test]
fn uuid_of_table_lookup_round_trip() {
    let src = sql(SHOEBOX_SCHEMA);
    let customer_uuid = src.uuid_of_table("customer").expect("customer table");
    let nodes = src.nodes();
    assert!(nodes.iter().any(|n| n.id == customer_uuid));
    assert!(src.uuid_of_table("nonexistent").is_none());
}

#[test]
fn multi_database_dump_qualifies_table_names() {
    let text = r"
CREATE DATABASE `db_a`;
USE `db_a`;
CREATE TABLE `shared_name` (
  `id` int NOT NULL,
  PRIMARY KEY (`id`)
) ENGINE=InnoDB;
CREATE TABLE `a_specific` (
  `id` int NOT NULL,
  PRIMARY KEY (`id`)
) ENGINE=InnoDB;

CREATE DATABASE `db_b`;
USE `db_b`;
CREATE TABLE `shared_name` (
  `id` int NOT NULL,
  PRIMARY KEY (`id`)
) ENGINE=InnoDB;
CREATE TABLE `b_specific` (
  `id` int NOT NULL,
  PRIMARY KEY (`id`)
) ENGINE=InnoDB;
";
    let src = sql(text);
    assert_eq!(src.table_count(), 4);

    let tables = src.tables_named();
    let names: Vec<&str> = tables.iter().map(|(n, _)| n.as_str()).collect();
    assert!(names.contains(&"db_a.shared_name"));
    assert!(names.contains(&"db_b.shared_name"));
    assert!(names.contains(&"db_a.a_specific"));
    assert!(names.contains(&"db_b.b_specific"));

    let u_a = src.uuid_of_table("db_a.shared_name").unwrap();
    let u_b = src.uuid_of_table("db_b.shared_name").unwrap();
    assert_ne!(u_a, u_b);
}

#[test]
fn delimiter_blocks_skip_routine_bodies() {
    let text = r"
USE `live`;
CREATE TABLE `real_table` ( `id` int NOT NULL, PRIMARY KEY (`id`) ) ENGINE=InnoDB;

DELIMITER ;;
CREATE DEFINER=`root`@`localhost` PROCEDURE `make_temp`()
BEGIN
  CREATE TABLE temp_inside_routine ( id int );
  INSERT INTO temp_inside_routine SELECT 1;
END ;;
DELIMITER ;

CREATE TABLE `real_table_2` ( `id` int NOT NULL, PRIMARY KEY (`id`) ) ENGINE=InnoDB;
";
    let src = sql(text);
    assert_eq!(src.table_count(), 2);
    let tables = src.tables_named();
    let names: Vec<&str> = tables.iter().map(|(n, _)| n.as_str()).collect();
    assert!(names.contains(&"live.real_table"));
    assert!(names.contains(&"live.real_table_2"));
    assert!(!names.iter().any(|n| n.contains("temp_inside_routine")));
}

#[test]
fn table_labels_are_their_qualified_names() {
    let src = sql("USE shop;\nCREATE TABLE IF NOT EXISTS `a` (\n);\ncreate table `x.b` (\n);\n");
    let nodes = src.nodes();
    assert_eq!(src.label_of(nodes[0].id), Some("shop.a".to_string()));
    assert_eq!(src.label_of(nodes[1].id), Some("x.b".to_string()));
    assert_eq!(src.label_of(Uuid7::now()), None);
    assert_eq!(nodes[0].kind.as_str(), "table");
}

#[test]
fn references_is_found_in_any_case_as_a_word() {
    let text = "CREATE TABLE `a` (\n  foreign key (`x`) xREFERENCES `b` references\t `a` (`id`)\n);\n\
                CREATE TABLE `b` ( `id` int ) -- note\n) engine=InnoDB;\n";
    let src = sql(text);
    assert_eq!(src.table_count(), 2);
    assert_eq!(src.fk_count(), 1);
    let edges = src.edges();
    assert_eq!(edges[0].source, src.uuid_of_table("a").unwrap());
    assert_eq!(edges[0].target, src.uuid_of_table("a").unwrap());
    assert_eq!(edges[0].kind.as_str(), "fk");
}

#[test]
fn views_and_routines_are_no_tables() {
    let text = "CREATE VIEW `v` AS SELECT 1;\n\
                CREATE DEFINER=`root`@`%` FUNCTION `f`() RETURNS int\n\
                CREATE TABLE `t` (\n) ENGINE=InnoDB;\n";
    let src = sql(text);
    assert_eq!(src.table_count(), 1);
    assert!(src.uuid_of_table("t").is_some());
}

#[test]
fn a_text_without_the_form_of_a_dump_is_refused() {
    for text in ["hello, this is not a dump", "\n  \n{\"a\": 1}\n", "select `t`;\nusing shop;\n"] {
        match SqlDumpSource::from_sql(text) {
            Ok(_) => panic!("{text:?} was read as a dump"),
            Err(SqlDumpError::Parse(reason)) => {
                assert_eq!(reason, "not recognizable as `mysqldump --no-data` output");
                assert_eq!(
                    SqlDumpError::Parse(reason).to_string(),
                    "sql dump parse error: not recognizable as `mysqldump --no-data` output"
                );
            }
        }
    }
}

#[test]
fn blank_texts_and_lone_comments_and_statements_are_dumps() {
    let texts = [
        "",
        " \n\t\r\n",
        "-- MySQL dump 10.13\n",
        "noise\n  /*!40101 SET NAMES utf8 */;\n",
        "USE `shop`;",
        "DELIMITER ;;",
        "CREATE DATABASE `shop`;",
        "CREATE DEFINER=`root`@`%` PROCEDURE `p`()",
        "  ALTER TABLE `a` ADD KEY (`b`);",
        "DROP TABLE IF EXISTS `a`;",
        "SET NAMES utf8mb4;",
        "LOCK TABLES `a` WRITE;",
        "UNLOCK TABLES;",
        "create view `v` as select 1;",
        "drop table if exists `a`;",
        "use shop;",
    ];
    for text in texts {
        let src = sql(text);
        assert_eq!(src.table_count(), 0, "{text:?}");
        assert_eq!(src.fk_count(), 0, "{text:?}");
    }
    assert_eq!(sql("noise\ncreate table `a` (\n);\n").table_count(), 1);
    assert_eq!(sql("alter table `a` add `b` int;\n").table_count(), 0);
}

#[test]
fn every_dump_gives_a_graph() {
    let text = "CREATE TABLE `a` (\n  FOREIGN KEY (`x`) REFERENCES `b` (`id`),\n  \
                FOREIGN KEY (`y`) REFERENCES `missing` (`id`)\n);\nCREATE TABLE `b` (\n);\n\
                ALTER TABLE `gone` ADD FOREIGN KEY (`z`) REFERENCES `a` (`id`);\n\
                ALTER TABLE `b` ADD FOREIGN KEY (`z`) REFERENCES `a` (`id`);\n";
    let src = sql(text);
    assert_eq!(src.fk_count(), 2);
    assert_eq!(src.table_count(), src.tables_named().len());
    let g = Graph::from_source(&src).unwrap();
    assert_eq!(g.node_count(), 2);
    for (name, id) in src.tables_named() {
        assert_eq!(src.uuid_of_table(&name), Some(id));
        assert_eq!(src.label_of(id), Some(name));
    }
}

#[test]
fn decimal_numbers_read_back() {
    for n in [0, 7, 10, 4_294_967_296, u64::MAX] {
        let shown = decimal_text(n);
        assert_eq!(shown, format!("{n}"));
        let chars: Vec<char> = shown.chars().collect();
        assert_eq!(parse_unsigned(&chars), Some(n));
    }
    let chars: Vec<char> = "-9223372036854775808".chars().collect();
    assert_eq!(parse_signed(&chars), Some(i64::MIN));
}

#[test]
fn nodes_have_the_identifiers_given() {
    let ids: Vec<Uuid7> = (0..3).map(|_| Uuid7::now()).collect();
    let (nk, ek) = (NodeKind::new("n"), EdgeKind::new("e"));
    let given = |nodes: Vec<swindex::Node>| -> Vec<Uuid7> { nodes.iter().map(|n| n.id).collect() };

    let text = "graph [ node [ id 4 ] node [ id 2 ] node [ id 9 ] edge [ source 9 target 4 ] ]";
    let doc = GmlDocument::from_str(text).ok().unwrap();
    assert_eq!(doc.node_count(), 3);
    let gml = GmlSource::with_ids(&doc, &ids, &nk, &ek);
    assert_eq!(given(gml.nodes()), ids);
    assert_eq!((gml.edges()[0].source, gml.edges()[0].target), (ids[2], ids[0]));

    let pairs = vec![(7, 3), (5, 7), (3, 7)];
    let ends = distinct_ends(&pairs);
    assert_eq!(ends, vec![3, 5, 7]);
    let list = EdgeListSource::with_ids(&pairs, &ends, &ids, &nk, &ek);
    assert_eq!(given(list.nodes()), ids);
    assert_eq!(list.edge_count(), 2);
    assert_eq!(list.label_of(ids[1]), Some("5".to_string()));

    let text = "CREATE TABLE `b` (\n  FOREIGN KEY (`x`) REFERENCES `a` (`id`)\n);\n\
                CREATE TABLE `a` (\n);\nCREATE TABLE `c` (\n);\n";
    let schema = Schema::from_sql(text).ok().unwrap();
    assert_eq!(schema.table_count(), 3);
    let dump = SqlDumpSource::with_ids(schema, &ids);
    assert_eq!(given(dump.nodes()), ids);
    assert_eq!(dump.uuid_of_table("a"), Some(ids[1]));
    assert_eq!((dump.edges()[0].source, dump.edges()[0].target), (ids[0], ids[1]));
}

#[test]
fn minted_identifiers_are_as_many_as_asked() {
    assert!(mint(0).is_empty());
    assert_eq!(mint(5).len(), 5);
}
