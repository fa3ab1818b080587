use graphql_cache::graphql::parser::parse_query;

#[test]
fn test_parser() -> () {
    let xxxx = "{ f1(p1: 1,                          p2: \"parm2\") { f2 }}";
    let resultxxxx = parse_query(xxxx);
    assert!(resultxxxx.is_ok());

    let stri = "                          {    field1  (p1 :                         1,         p2:\"as        \\\"      d              \"    )     {      subf1      subf2(  p3   :0)   { s     } }}      ";
    let rezult = parse_query(stri);
    assert!(rezult.is_ok());

    let stri2 = "{ggggg: field1(p1:{v1:1,v2:\"2\",v3:{vv3:33},v4:[12,13,15]},p2:\"as        \\\"      d              \"){f1: subf1 subf2(p3:0){s}}, cccc: field1(p1:1){subf1}}";
    let rezult2 = parse_query(stri2);
    assert!(rezult2.is_ok());

    let stri3 = "query TheQuery($p1: Int = 10){alias1: field1(id: $p1) { id, name } }";
    let rezult3 = parse_query(stri3);
    assert!(rezult3.is_ok());

    let stri4 = "query TheQuery($p1: Int = 10){alias1: field1(id: $p1) { id, name } alias2: field2(id: $p1, name: \"the name\") { id name } }";
    let rezult4 = parse_query(stri4);
    assert!(rezult4.is_ok());

    let stri5 = "query TheQuery($p1: Int = 10){alias1: field1(id: $p1) { id, name } alias2: field2(id: $p1, name: \"the name\") { id name } } query TheSecondQuery($p1: Int = 20){alias1: field1(id: $p1) { id, name surname } alias2: field2(id: $p1, name: \"the second name\") { id name surname } }";
    let rezult5 = parse_query(stri5);
    assert!(rezult5.is_ok());

    let stri6 = "query TheQuery{alias1: field1(id: $p1) { id, name } alias2: field2(id: $p1, name: \"the name\") { id name } } query TheSecondQuery($p1: Int = 20){alias1: field1(id: $p1) { id, name surname } alias2: field2(id: $p1, name: \"the second name\") { id name surname } }";
    let rezult6 = parse_query(stri6);
    assert!(rezult6.is_ok());

    let stri7 = "query TheQuery{alias1: field1(id: $p1) { dob ...userFragment } alias2: field2(id: $p1, name: \"the name\") {...userFragment } } query TheSecondQuery($p1: Int = 20){alias1: field1(id: $p1) {...userFragment surname } alias2: field2(id: $p1, name: \"the second name\") {...userFragment surname } } fragment userFragment on User { id name }";
    let rezult7 = parse_query(stri7);
    assert!(rezult7.is_ok());

    let stri8 = "{field1(p1:1,p2:\"as              d              \"){subf1 subf2(p3:0){s}}}";
    let result8 = parse_query(stri8);
    assert!(result8.is_ok());

    let stri9 = "  {    field1 (    p1 : 1   ,  p2    :   \"asd\" ) {    subf1   subf2   (    p3 :  0 )   {   s  }  }    } ";
    let result9 = parse_query(stri9);
    assert!(result9.is_ok());
}
