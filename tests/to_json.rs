use tmx::to_json::{convert, to_json, Error, MarkupEvent, Value};

fn field<'a>(v: &'a Value, key: &str) -> Option<&'a Value> {
    match v {
        Value::Object(f) => f.iter().find(|(k, _)| k == key).map(|(_, v)| v),
        _ => None,
    }
}

fn items(v: &Value) -> &Vec<Value> {
    match v {
        Value::Array(a) => a,
        other => panic!("expected an array, found {:?}", other),
    }
}

fn text(v: &Value) -> &str {
    match v {
        Value::Text(t) => t,
        other => panic!("expected a text, found {:?}", other),
    }
}

fn get<'a>(v: &'a Value, path: &[(&str, usize)]) -> &'a Value {
    let mut cur = v;
    for (key, i) in path {
        cur = &items(field(cur, key).unwrap_or_else(|| panic!("no field {}", key)))[*i];
    }
    cur
}

fn attr<'a>(v: &'a Value, key: &str) -> &'a str {
    text(field(v, key).unwrap_or_else(|| panic!("no attribute {}", key)))
}

fn keys(v: &Value) -> Vec<String> {
    match v {
        Value::Object(f) => f.iter().map(|(k, _)| k.clone()).collect(),
        _ => vec![],
    }
}

const ORTHOGONAL: &str = r##"
    <?xml version="1.0" encoding="UTF-8"?>
    <map version="1.2" tiledversion="1.3.3" orientation="orthogonal" renderorder="right-down" width="4" height="4" tilewidth="16" tileheight="16" infinite="0" nextlayerid="2" nextobjectid="1">
     <tileset firstgid="1" name="test" tilewidth="16" tileheight="16" tilecount="256" columns="16">
      <image source="tiles16.png" width="256" height="256"/>
     </tileset>
     <layer id="1" name="Tile Layer 1" width="4" height="4">
      <data encoding="csv">
    1,2684354561,1,2147483649,
    1610612737,3221225473,1073741825,3221225473,
    2147483649,3758096385,1073741825,536870913,
    536870913,1073741825,3758096385,2147483649
    </data>
     </layer>
    </map>
    "##;

#[test]
fn test_orthogonal() {
    let v = to_json(ORTHOGONAL).unwrap();
    assert_eq!(keys(&v), vec!["map"]);
    let map = get(&v, &[("map", 0)]);
    assert_eq!(attr(map, "orientation"), "orthogonal");
    assert_eq!(attr(map, "renderorder"), "right-down");
    assert_eq!(items(field(map, "tileset").unwrap()).len(), 1);
    let image = get(map, &[("tileset", 0), ("image", 0)]);
    assert_eq!(attr(image, "source"), "tiles16.png");
    let data = get(map, &[("layer", 0), ("data", 0)]);
    assert_eq!(attr(data, "encoding"), "csv");
    assert!(attr(data, "_").contains("1,2684354561,1,2147483649,"));
}

#[test]
fn test_isometric_staggered() {
    let doc = ORTHOGONAL.replace(
        "orientation=\"orthogonal\"",
        "orientation=\"staggered\" staggeraxis=\"y\" staggerindex=\"odd\"",
    );
    let v = to_json(&doc).unwrap();
    let map = get(&v, &[("map", 0)]);
    assert_eq!(attr(map, "orientation"), "staggered");
    assert_eq!(attr(map, "staggeraxis"), "y");
    assert_eq!(attr(map, "staggerindex"), "odd");
}

#[test]
fn test_tileset() {
    let doc = r##"
    <?xml version="1.0" encoding="UTF-8" ?>
    <tileset version="1.2" tiledversion="1.3.3" name="tiles16" tilewidth="16" tileheight="16" tilecount="256" columns="16">
        <image source="tiles16.png" width="256" height="256" />
        <tile id="0" type="Solid" />
        <tile id="1" type="Solid" />
        <tile id="2" type="Solid" />
        <tile id="3" type="OneWay" />
    </tileset>
    "##;
    let v = to_json(doc).unwrap();
    let ts = get(&v, &[("tileset", 0)]);
    assert_eq!(attr(ts, "name"), "tiles16");
    let tiles = items(field(ts, "tile").unwrap());
    assert_eq!(tiles.len(), 4);
    let ids: Vec<&str> = tiles.iter().map(|t| attr(t, "id")).collect();
    assert_eq!(ids, vec!["0", "1", "2", "3"]);
    assert_eq!(attr(&tiles[3], "type"), "OneWay");
    assert_eq!(items(field(ts, "image").unwrap()).len(), 1);
    assert!(field(ts, "_").is_none());
}

#[test]
fn repeated_children_form_ordered_arrays() {
    let v = to_json("<a><b n=\"1\"/><c/><b n=\"2\"></b><b n=\"3\"/></a>").unwrap();
    let a = get(&v, &[("a", 0)]);
    let bs = items(field(a, "b").unwrap());
    assert_eq!(bs.iter().map(|b| attr(b, "n")).collect::<Vec<_>>(), vec!["1", "2", "3"]);
    assert_eq!(items(field(a, "c").unwrap()).len(), 1);
}

#[test]
fn single_child_is_still_an_array() {
    let v = to_json("<a><b/></a>").unwrap();
    assert_eq!(items(field(get(&v, &[("a", 0)]), "b").unwrap()).len(), 1);
}

#[test]
fn whitespace_text_is_dropped() {
    let v = to_json("<a x=\"1\">  \n\t </a>").unwrap();
    let a = get(&v, &[("a", 0)]);
    assert_eq!(keys(a), vec!["x"]);
    let v = to_json("<a> hi </a>").unwrap();
    assert_eq!(attr(get(&v, &[("a", 0)]), "_"), " hi ");
}

#[test]
fn last_text_wins() {
    let v = to_json("<a>one<b/>two</a>").unwrap();
    assert_eq!(attr(get(&v, &[("a", 0)]), "_"), "two");
}

#[test]
fn entities_are_replaced() {
    let v = to_json("<a t=\"x &amp; y\">&lt;b&gt;</a>").unwrap();
    let a = get(&v, &[("a", 0)]);
    assert_eq!(attr(a, "t"), "x & y");
    assert_eq!(attr(a, "_"), "<b>");
}

#[test]
fn attribute_and_child_collide() {
    assert!(matches!(to_json("<a b=\"1\"><b/></a>"), Err(Error::InvalidArray)));
    assert!(matches!(to_json("<a>text<_/></a>"), Err(Error::InvalidArray)));
}

#[test]
fn unclosed_element_is_unexpected_eof() {
    assert!(matches!(to_json("<a><b>"), Err(Error::UnexpectedEof)));
}

#[test]
fn malformed_markup_is_a_syntax_error() {
    assert!(matches!(to_json("<a></b>"), Err(Error::XmlError(_))));
}

#[test]
fn empty_document() {
    let v = to_json("").unwrap();
    assert!(keys(&v).is_empty());
}

#[test]
fn events_convert_directly() {
    let events = vec![
        MarkupEvent::Ignored,
        MarkupEvent::Start { name: "m".to_string(), attributes: vec![("k".to_string(), "v".to_string())] },
        MarkupEvent::Empty { name: "t".to_string(), attributes: vec![] },
        MarkupEvent::Text("  ".to_string()),
        MarkupEvent::Empty { name: "t".to_string(), attributes: vec![] },
        MarkupEvent::End,
    ];
    let v = convert(&events, None).unwrap();
    let m = get(&v, &[("m", 0)]);
    assert_eq!(keys(m), vec!["k", "t"]);
    assert_eq!(items(field(m, "t").unwrap()).len(), 2);
    let open = vec![MarkupEvent::Start { name: "m".to_string(), attributes: vec![] }];
    assert!(matches!(convert(&open, None), Err(Error::UnexpectedEof)));
    let failed = convert(&open, Some(Error::XmlError("bad".to_string())));
    assert!(matches!(failed, Err(Error::XmlError(m)) if m == "bad"));
    let closed = vec![MarkupEvent::End, MarkupEvent::Start { name: "z".to_string(), attributes: vec![] }];
    assert!(keys(&convert(&closed, Some(Error::UnexpectedEof)).unwrap()).is_empty());
}

#[test]
fn duplicate_attributes_are_rejected() {
    assert!(matches!(to_json("<a x=\"1\" x=\"2\"/>"), Err(Error::XmlError(_))));
}

#[test]
fn bad_escape_is_a_syntax_error() {
    assert!(matches!(to_json("<a>&nope;</a>"), Err(Error::XmlError(_))));
    assert!(matches!(to_json("<a t=\"&bad;\"/>"), Err(Error::XmlError(_))));
}
