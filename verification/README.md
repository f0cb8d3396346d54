# balancebeam

A load balancer for HTTP/1.1. It accepts connections of clients, forwards the requests on them to one
of several upstream servers, and passes the responses on. It notices servers that fail, asks all of
them from time to time whether they work, and limits how many requests a client may make per minute.

The logic is a library that Verus verifies; the program around it does the input and output.

| Module       | What it holds                                                              |
|--------------|----------------------------------------------------------------------------|
| `syntax`     | the characters of messages, and how a head is laid out on the wire         |
| `number`     | decimal notation                                                           |
| `headers`    | headers, in an `http::HeaderMap`                                           |
| `message`    | versions, methods, targets, status codes                                   |
| `parser`     | heads of messages, as `httparse` reads them                                |
| `stream`     | what comes of an attempt to read from a connection                         |
| `request`    | reading, changing and writing requests                                     |
| `response`   | reading, making and writing responses                                      |
| `rate_limit` | how many requests a client may make                                        |
| `upstream`   | which upstream server gets a connection, and what happens when it fails    |
| `health`     | the active health check                                                    |
| `connection` | the course of a client's connection                                        |

`app/` is the program: command line, sockets, tasks and logging. It performs what the library decides
and reports back what came of it.

What the library takes on trust is what it says of calls into `http`, `httparse` and `rand`; each such
function is marked `external_body`, and its comment names the call.
