use std::collections::HashMap;

use data_mingler::datasource::{
    load_datasources_xml, parse_headings, CatalogError, Csv, Database, Datasource, DeserializedDatasource,
    Excel, Field, Xml,
};

fn record(ds_type: &str, id: u8, name: &str) -> DeserializedDatasource {
    DeserializedDatasource {
        ds_type: ds_type.to_string(),
        id,
        name: name.to_string(),
        filename: None,
        path: None,
        sheet: None,
        delimiter: None,
        headings: None,
        system: None,
        connection: None,
        username: None,
        password: None,
        database: None,
    }
}

fn get_init_datasources() -> Vec<DeserializedDatasource> {
    vec![
        DeserializedDatasource {
            ds_type: String::from("csv"),
            id: 1,
            name: String::from("myCSV"),
            filename: Some(String::from("file.csv")),
            path: Some(String::from("/some-path/")),
            delimiter: Some(','),
            headings: Some(String::from("yes")),
            sheet: None,
            system: None,
            connection: None,
            username: None,
            password: None,
            database: None,
        },
        DeserializedDatasource {
            ds_type: String::from("excel"),
            id: 2,
            name: String::from("myExcel"),
            filename: Some(String::from("file.xlsx")),
            path: Some(String::from("/some-path/")),
            sheet: Some(String::from("Sheet1")),
            headings: Some(String::from("no")),
            delimiter: None,
            system: None,
            connection: None,
            username: None,
            password: None,
            database: None,
        },
        DeserializedDatasource {
            ds_type: String::from("xml"),
            id: 3,
            name: String::from("myCSV2"),
            filename: Some(String::from("file.xml")),
            path: Some(String::from("/some-path/")),
            delimiter: Some(','),
            headings: Some(String::from("yes")),
            sheet: None,
            system: None,
            connection: None,
            username: None,
            password: None,
            database: None,
        },
        DeserializedDatasource {
            ds_type: String::from("db"),
            id: 4,
            name: String::from("sqlDb"),
            system: Some(String::from("postgresql")),
            connection: Some(String::from("localhost:5432")),
            username: Some(String::from("bdms")),
            password: Some(String::from("mysecretpassword")),
            database: Some(String::from("postgres")),
            filename: None,
            path: None,
            delimiter: None,
            headings: None,
            sheet: None,
        },
    ]
}

fn get_datasources() -> HashMap<String, Datasource> {
    let vector = vec![
        Datasource::Csv(Csv {
            id: 1,
            name: String::from("myCSV"),
            filename: String::from("file.csv"),
            path: String::from("/some-path/"),
            delimiter: ',',
            has_headers: true,
        }),
        Datasource::Excel(Excel {
            id: 2,
            name: String::from("myExcel"),
            filename: String::from("file.xlsx"),
            path: String::from("/some-path/"),
            sheet: String::from("Sheet1"),
            has_headers: false,
        }),
        Datasource::Xml(Xml {
            id: 3,
            name: String::from("myCSV2"),
            filename: String::from("file.xml"),
            path: String::from("/some-path/"),
        }),
        Datasource::Database(Database {
            id: 4,
            name: String::from("sqlDb"),
            system: String::from("postgresql"),
            connection: String::from("localhost:5432"),
            username: String::from("bdms"),
            password: String::from("mysecretpassword"),
            database: String::from("postgres"),
        }),
    ];
    let mut ds_map: HashMap<String, Datasource> = HashMap::new();
    for ds in vector {
        let name = match &ds {
            Datasource::Csv(csv) => csv.name.clone(),
            Datasource::Excel(excel) => excel.name.clone(),
            Datasource::Database(db) => db.name.clone(),
            Datasource::Xml(xml) => xml.name.clone(),
        };
        ds_map.insert(name, ds);
    }
    ds_map
}

#[test]
fn test_load_datasources_xml() {
    let catalog = load_datasources_xml(get_init_datasources()).unwrap();
    let datasources: HashMap<String, Datasource> =
        catalog.entries.iter().map(|d| (d.name().clone(), d.clone())).collect();
    assert_eq!(datasources, get_datasources());
}

#[test]
fn catalog_lookup_by_name() {
    let catalog = load_datasources_xml(get_init_datasources()).unwrap();
    assert_eq!(catalog.entries.len(), 4);
    assert!(matches!(catalog.get(&"sqlDb".to_string()), Some(Datasource::Database(_))));
    assert!(catalog.get(&"nothing".to_string()).is_none());
}

#[test]
fn later_entry_of_same_name_replaces_earlier() {
    let mut first = record("xml", 1, "dup");
    first.filename = Some("a.xml".to_string());
    first.path = Some("/a".to_string());
    let mut second = record("xml", 2, "dup");
    second.filename = Some("b.xml".to_string());
    second.path = Some("/b".to_string());
    let catalog = load_datasources_xml(vec![first, second]).unwrap();
    assert_eq!(catalog.entries.len(), 1);
    assert_eq!(
        catalog.entries[0],
        Datasource::Xml(Xml { id: 2, name: "dup".to_string(), filename: "b.xml".to_string(), path: "/b".to_string() })
    );
}

#[test]
fn missing_field_is_named() {
    let mut csv = record("csv", 1, "c");
    csv.filename = Some("f.csv".to_string());
    csv.path = Some("/p".to_string());
    csv.headings = Some("yes".to_string());
    assert_eq!(
        load_datasources_xml(vec![csv]),
        Err(CatalogError::MissingField("c".to_string(), Field::Delimiter))
    );
    let db = record("db", 2, "d");
    assert_eq!(
        Datasource::from_record(db),
        Err(CatalogError::MissingField("d".to_string(), Field::System))
    );
    let mut excel = record("excel", 3, "e");
    excel.filename = Some("f.xlsx".to_string());
    excel.path = Some("/p".to_string());
    excel.headings = Some("1".to_string());
    assert_eq!(
        Datasource::from_record(excel),
        Err(CatalogError::MissingField("e".to_string(), Field::Sheet))
    );
}

#[test]
fn unknown_type_is_rejected() {
    assert_eq!(
        load_datasources_xml(vec![record("json", 1, "j")]),
        Err(CatalogError::UnknownType("json".to_string()))
    );
}

#[test]
fn headings_tokens() {
    for yes in ["yes", "true", "y", "1"] {
        assert!(parse_headings(&yes.to_string()));
    }
    for no in ["no", "YES", "0", ""] {
        assert!(!parse_headings(&no.to_string()));
    }
}
