use league_client::client::{is_client_line, parse_process, ClientBuilder};
use league_client::connector::{ConnectRequest, Connector};
use league_client::Error;

#[test]
fn client_from_string() {
    let example = r#"/Applications/League of Legends.app/Contents/LoL/League of Legends.app/Contents/MacOS/LeagueClientUx --riotclient-auth-token=token --riotclient-app-port=12345 --no-rads --disable-self-update --region=NA --locale=en_US --client-config-url=https://clientconfig.rpg.riotgames.com --riotgamesapi-standalone --riotgamesapi-settings=token --rga-lite --remoting-auth-token=token --app-port=12345 --install-directory=/Applications/League of Legends.app/Contents/LoL --app-name=LeagueClient --ux-name=LeagueClientUx --ux-helper-name=LeagueClientUxHelper --log-dir=LeagueClient Logs --crash-reporting=crashpad --crash-environment=NA1 --app-log-file-path=/Applications/League of Legends.app/Contents/LoL/Logs/LeagueClient Logs/2024-03-09T14-52-20_5736_LeagueClient.log --app-pid=5736 --output-base-dir=/Applications/League of Legends.app/Contents/LoL --no-proxy-server --ignore-certificate-errors"#;

    let (token, port) = parse_process(example).expect("usable client");
    assert_eq!(port, "12345".to_string());
    assert_eq!(token, "token".to_string())
}

#[test]
fn parse_process_quoted_listing() {
    let line = r#""C:\Riot\LeagueClientUx.exe" "--app-port=443" "--remoting-auth-token=abc=xyz""#;
    let (token, port) = parse_process(line).expect("usable client");
    assert_eq!(port, "443".to_string());
    // the value runs to the next `=` separator, as the listing splits it
    assert_eq!(token, "abc".to_string());
}

#[test]
fn parse_process_without_markers_fails() {
    let err = parse_process("/bin/other --verbose").expect_err("not the client");
    assert_eq!(err, Error::AppNotRunning);
    let err = parse_process("--app-port=1").expect_err("token still missing");
    assert_eq!(err, Error::AppNotRunning);
}

#[test]
fn client_line_filter() {
    assert!(is_client_line("LeagueClientUx --remoting-auth-token=t --app-port=9"));
    assert!(!is_client_line("LeagueClientUx --app-port=9"));
    assert!(!is_client_line("grep LeagueClientUx --remoting-auth-token"));
}

#[test]
fn missing_port_is_reported_before_any_socket() {
    let connector = Connector::builder().insecure(true).build().expect("insecure mode");
    let req = ConnectRequest {
        host: Some("127.0.0.1".to_string()),
        port: None,
        authorization: "Basic abc".to_string(),
    };
    let err = connector.connect_target(&req).expect_err("no port given");
    assert_eq!(err, Error::MissingPort);
    let req = ConnectRequest {
        host: None,
        port: Some(443),
        authorization: "Basic abc".to_string(),
    };
    let err = connector.connect_target(&req).expect_err("no host given");
    assert_eq!(err, Error::MissingHost);
    let req = ConnectRequest {
        host: Some("127.0.0.1".to_string()),
        port: Some(60321),
        authorization: "Basic abc".to_string(),
    };
    let target = connector.connect_target(&req).expect("fully-qualified target");
    assert_eq!(target, "127.0.0.1:60321".to_string());
}

#[test]
fn non_insecure_mode_is_a_reported_error() {
    let err = Connector::builder().build().expect_err("trust store not wired");
    assert!(matches!(err, Error::Tls(_)));
    let err = Connector::builder().insecure(false).build().expect_err("still refused");
    assert!(matches!(err, Error::Tls(_)));
}

#[test]
fn auth_header_is_basic_base64() {
    let builder = ClientBuilder {
        token: "token".to_string(),
        port: "12345".to_string(),
        insecure: true,
    };
    // base64 of `riot:token`
    assert_eq!(builder.auth(), "Basic cmlvdDp0b2tlbg==".to_string());
}

#[test]
fn builder_assembles_client() {
    let line = "LeagueClientUx --remoting-auth-token=token --app-port=12345";
    let client = ClientBuilder::from_process_line(line)
        .expect("parsable line")
        .insecure(true)
        .build()
        .expect("insecure mode");
    assert_eq!(client.addr, "127.0.0.1:12345".to_string());
    assert_eq!(client.basic, "Basic cmlvdDp0b2tlbg==".to_string());
    assert!(client.connector.insecure);
}

#[test]
fn secure_builder_is_refused() {
    let line = "LeagueClientUx --remoting-auth-token=token --app-port=12345";
    let err = ClientBuilder::from_process_line(line)
        .expect("parsable line")
        .build()
        .expect_err("secure mode is not wired");
    assert!(matches!(err, Error::Tls(_)));
}
