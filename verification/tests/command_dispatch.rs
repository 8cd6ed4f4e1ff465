use redis_clone::commands::{dispatch, RedisCommand, RedisCommandError};
use redis_clone::resp::RESPValues;

fn bulk(s: &str) -> RESPValues {
    RESPValues::BulkString(s.to_string())
}

#[test]
fn parse_command_docs_with_no_string_correctly() {
    let value = RESPValues::Array(vec![
        RESPValues::BulkString("COMMAND".to_string()),
        RESPValues::BulkString("DOCS".to_string()),
    ]);
    let result = RedisCommand::try_from(value);

    assert!(result.is_ok_and(|r| r == RedisCommand::CommandDocs(None)));
}

#[test]
fn parse_command_docs_with_a_string_correctly() {
    let value = RESPValues::Array(vec![
        RESPValues::BulkString("COMMAND".to_string()),
        RESPValues::BulkString("DOCS".to_string()),
        RESPValues::BulkString("SET".to_string()),
    ]);
    let result = RedisCommand::try_from(value);

    assert!(result.is_ok_and(|r| r == RedisCommand::CommandDocs(Some("SET".to_string()))));
}

#[test]
fn parse_ping_with_no_string_correctly() {
    let value = RESPValues::Array(vec![RESPValues::BulkString("PING".to_string())]);
    let result = RedisCommand::try_from(value);

    assert!(result.is_ok_and(|r| r == RedisCommand::Ping(None)));
}

#[test]
fn parse_ping_with_one_string_correctly() {
    let value = RESPValues::Array(vec![
        RESPValues::BulkString("PING".to_string()),
        RESPValues::BulkString("testing".to_string()),
    ]);
    let result = RedisCommand::try_from(value);

    assert!(result.is_ok_and(|r| r == RedisCommand::Ping(Some("testing".to_string()))));
}

#[test]
fn parse_echo_with_string_correctly() {
    let value = RESPValues::Array(vec![
        RESPValues::BulkString("ECHO".to_string()),
        RESPValues::BulkString("testing".to_string()),
    ]);
    let result = RedisCommand::try_from(value);

    assert!(result.is_ok_and(|r| r == RedisCommand::Echo("testing".to_string())));
}

#[test]
fn parse_echo_without_argument_is_arity_error() {
    let value = RESPValues::Array(vec![bulk("ECHO")]);
    let result = RedisCommand::try_from(value);
    assert_eq!(result, Err(RedisCommandError::ArityError("ECHO".to_string())));
}

#[test]
fn parse_unknown_command() {
    let value = RESPValues::Array(vec![bulk("GET"), bulk("key")]);
    let result = RedisCommand::try_from(value);
    assert_eq!(
        result,
        Err(RedisCommandError::UnknownCommand("GET".to_string()))
    );
}

#[test]
fn parse_non_array_is_protocol_error() {
    let result = RedisCommand::try_from(RESPValues::Integer(3));
    assert_eq!(result, Err(RedisCommandError::ProtocolError));
}

#[test]
fn parse_empty_array_is_protocol_error() {
    let result = RedisCommand::try_from(RESPValues::Array(vec![]));
    assert_eq!(result, Err(RedisCommandError::ProtocolError));
}

#[test]
fn parse_array_with_non_bulk_element_is_protocol_error() {
    let value = RESPValues::Array(vec![bulk("PING"), RESPValues::Integer(1)]);
    let result = RedisCommand::try_from(value);
    assert_eq!(result, Err(RedisCommandError::ProtocolError));
}

#[test]
fn parse_command_without_docs_is_not_implemented() {
    let value = RESPValues::Array(vec![bulk("COMMAND"), bulk("INFO")]);
    let result = RedisCommand::try_from(value);
    assert_eq!(
        result,
        Err(RedisCommandError::NotImplemented("COMMAND".to_string()))
    );
}

#[test]
fn dispatch_ping_replies_pong() {
    let request = RESPValues::Array(vec![bulk("PING")]);
    let reply = dispatch(request);
    assert_eq!(reply, RESPValues::SimpleString("PONG".to_string()));
}

#[test]
fn dispatch_ping_with_payload_echoes_bulk() {
    let request = RESPValues::Array(vec![bulk("PING"), bulk("hello")]);
    let reply = dispatch(request);
    assert_eq!(reply, RESPValues::BulkString("hello".to_string()));
}

#[test]
fn dispatch_echo_replies_bulk() {
    let request = RESPValues::Array(vec![bulk("ECHO"), bulk("payload")]);
    let reply = dispatch(request);
    assert_eq!(reply, RESPValues::BulkString("payload".to_string()));
}

#[test]
fn dispatch_echo_without_argument_replies_arity_error() {
    let request = RESPValues::Array(vec![bulk("ECHO")]);
    let reply = dispatch(request);
    assert_eq!(
        reply,
        RESPValues::SimpleError("ERR wrong number of arguments for 'ECHO'".to_string())
    );
}

#[test]
fn dispatch_unknown_command_names_it() {
    let request = RESPValues::Array(vec![bulk("FLUSHALL")]);
    let reply = dispatch(request);
    assert_eq!(
        reply,
        RESPValues::SimpleError("ERR unknown command 'FLUSHALL'".to_string())
    );
}

#[test]
fn dispatch_command_docs_replies_empty_array() {
    let request = RESPValues::Array(vec![bulk("COMMAND"), bulk("DOCS")]);
    let reply = dispatch(request);
    assert_eq!(reply, RESPValues::Array(vec![]));
}

#[test]
fn dispatch_non_array_replies_protocol_error() {
    let reply = dispatch(RESPValues::SimpleString("PING".to_string()));
    assert_eq!(
        reply,
        RESPValues::SimpleError("ERR expected a non-empty array of bulk strings".to_string())
    );
}

#[test]
fn dispatch_is_case_sensitive() {
    let request = RESPValues::Array(vec![bulk("ping")]);
    let reply = dispatch(request);
    assert_eq!(
        reply,
        RESPValues::SimpleError("ERR unknown command 'ping'".to_string())
    );
}

#[test]
fn dispatch_echoed_payload_with_crlf_stays_intact() {
    let request = RESPValues::Array(vec![bulk("ECHO"), bulk("a\r\nb")]);
    let reply = dispatch(request);
    assert_eq!(reply, RESPValues::BulkString("a\r\nb".to_string()));
    assert_eq!(&reply.to_string(), "$4\r\na\r\nb\r\n");
}

#[test]
fn error_reply_leaves_unprintable_name_out() {
    let request = RESPValues::Array(vec![bulk("BAD\r\nNAME")]);
    let reply = dispatch(request);
    assert_eq!(
        reply,
        RESPValues::SimpleError("ERR unknown command".to_string())
    );
}
